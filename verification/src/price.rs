//! Price normalization.
//!
//! A raw price string (`"$1,299.00"`, `"Price not found"`) is parsed into a
//! whole number of cents, or nothing when it holds no usable number.  The
//! parser strips `'$'`, `','` and `' '`, takes the maximal leading run of
//! digits and `'.'`, and accepts it when it holds at least one digit and at
//! most one `'.'`.  Fractional digits beyond the second are truncated, and a
//! value above [`MAX_PRICE_CENTS`] is rejected as out of range; an absent
//! value is a normal result, never an error and never a zero.

use vstd::prelude::*;
use vstd::string::StrSliceExecFns;

verus! {

/// Largest representable price, in cents (ten trillion dollars).
pub const MAX_PRICE_CENTS: u64 = 1000000000000000;

/// Largest representable whole-dollar part: `MAX_PRICE_CENTS` is one hundred
/// times this.
pub const MAX_WHOLE_DOLLARS: u64 = 10000000000000;

/// An ASCII decimal digit.
pub open spec fn is_digit(c: char) -> bool {
    48 <= c as u32 <= 57
}

/// Numeric value of an ASCII decimal digit.
pub open spec fn digit_val(c: char) -> int {
    c as u32 - 48
}

/// A character that may appear in the numeric run: a digit or a point.
pub open spec fn is_price_char(c: char) -> bool {
    is_digit(c) || c == '.'
}

/// A character that survives stripping: not a currency symbol, thousands
/// separator or space.
pub open spec fn keep_char(c: char) -> bool {
    c != '$' && c != ',' && c != ' '
}

/// The price string with `'$'`, `','` and `' '` removed.
pub open spec fn strip_seq(s: Seq<char>) -> Seq<char>
    decreases s.len(),
{
    if s.len() == 0 {
        Seq::empty()
    } else if keep_char(s.last()) {
        strip_seq(s.drop_last()).push(s.last())
    } else {
        strip_seq(s.drop_last())
    }
}

/// Length of the maximal leading run of digits and points.
pub open spec fn price_run_len(s: Seq<char>) -> int
    decreases s.len(),
{
    if s.len() > 0 && is_price_char(s[0]) {
        1 + price_run_len(s.drop_first())
    } else {
        0
    }
}

/// The maximal leading run of digits and points.
pub open spec fn num_prefix(s: Seq<char>) -> Seq<char> {
    s.take(price_run_len(s))
}

/// Index of the first `'.'`, or the length when there is none.
pub open spec fn dot_pos(s: Seq<char>) -> int
    decreases s.len(),
{
    if s.len() == 0 {
        0
    } else if s[0] == '.' {
        0
    } else {
        1 + dot_pos(s.drop_first())
    }
}

/// Number of decimal digits in `s`.
pub open spec fn digit_count(s: Seq<char>) -> nat
    decreases s.len(),
{
    if s.len() == 0 {
        0
    } else if is_digit(s.last()) {
        digit_count(s.drop_last()) + 1
    } else {
        digit_count(s.drop_last())
    }
}

/// Number of `'.'` in `s`.
pub open spec fn dot_count(s: Seq<char>) -> nat
    decreases s.len(),
{
    if s.len() == 0 {
        0
    } else if s.last() == '.' {
        dot_count(s.drop_last()) + 1
    } else {
        dot_count(s.drop_last())
    }
}

/// The numeric run is usable: at least one digit, at most one point.
pub open spec fn valid_prefix(p: Seq<char>) -> bool {
    digit_count(p) >= 1 && dot_count(p) <= 1
}

/// Value of a run of decimal digits, most significant first.
pub open spec fn digits_val(ds: Seq<char>) -> int
    decreases ds.len(),
{
    if ds.len() == 0 {
        0
    } else {
        digits_val(ds.drop_last()) * 10 + digit_val(ds.last())
    }
}

/// Cents contributed by the fractional digits: the first two, the second
/// defaulting to zero; further digits are truncated.
pub open spec fn frac_cents(f: Seq<char>) -> int {
    if f.len() == 0 {
        0
    } else if f.len() == 1 {
        digit_val(f[0]) * 10
    } else {
        digit_val(f[0]) * 10 + digit_val(f[1])
    }
}

/// Value in cents of a usable numeric run: whole-dollar digits before the
/// point, fractional digits after it.
pub open spec fn cents_of(p: Seq<char>) -> int {
    let d = dot_pos(p);
    if d == p.len() {
        digits_val(p) * 100
    } else {
        digits_val(p.take(d)) * 100 + frac_cents(p.skip(d + 1))
    }
}

/// What price normalization yields on a raw price string: the cents value of
/// the maximal numeric run after stripping, or nothing when that run is
/// unusable or out of range.
pub open spec fn parse_price_spec(s: Seq<char>) -> Option<u64> {
    let p = num_prefix(strip_seq(s));
    if valid_prefix(p) && 0 <= cents_of(p) <= MAX_PRICE_CENTS {
        Some(cents_of(p) as u64)
    } else {
        None
    }
}

/// A parsed price always lies within the representable range.
pub proof fn lemma_parse_price_bound(s: Seq<char>)
    ensures
        match parse_price_spec(s) {
            Some(p) => 0 <= p <= MAX_PRICE_CENTS,
            None => true,
        },
{
}

/// Stripping one more character keeps it exactly when it passes the filter.
proof fn lemma_strip_take_step(s: Seq<char>, i: int)
    requires
        0 <= i < s.len(),
    ensures
        strip_seq(s.take(i + 1)) == if keep_char(s[i]) {
            strip_seq(s.take(i)).push(s[i])
        } else {
            strip_seq(s.take(i))
        },
{
    assert(s.take(i + 1).drop_last() =~= s.take(i));
    assert(s.take(i + 1).last() == s[i]);
}

/// A scan that saw only digits and points before `j`, and something else (or
/// the end) at `j`, found the maximal numeric run.
proof fn lemma_price_run_len_at(s: Seq<char>, j: int)
    requires
        0 <= j <= s.len(),
        forall|k: int| 0 <= k < j ==> is_price_char(#[trigger] s[k]),
        j == s.len() || !is_price_char(s[j]),
    ensures
        price_run_len(s) == j,
    decreases j,
{
    if j > 0 {
        lemma_price_run_len_at(s.drop_first(), j - 1);
    }
}

/// A scan that saw no `'.'` before `j`, and a `'.'` (or the end) at `j`,
/// found the first point.
proof fn lemma_dot_pos_at(s: Seq<char>, j: int)
    requires
        0 <= j <= s.len(),
        forall|k: int| 0 <= k < j ==> s[k] != '.',
        j == s.len() || s[j] == '.',
    ensures
        dot_pos(s) == j,
    decreases j,
{
    if j > 0 {
        lemma_dot_pos_at(s.drop_first(), j - 1);
    }
}

/// Counting one more character raises the digit count exactly on a digit.
proof fn lemma_digit_count_take_step(s: Seq<char>, i: int)
    requires
        0 <= i < s.len(),
    ensures
        digit_count(s.take(i + 1)) == digit_count(s.take(i)) + (if is_digit(s[i]) {
            1int
        } else {
            0int
        }),
{
    assert(s.take(i + 1).drop_last() =~= s.take(i));
    assert(s.take(i + 1).last() == s[i]);
}

/// Counting one more character raises the dot count exactly on a `'.'`.
proof fn lemma_dot_count_take_step(s: Seq<char>, i: int)
    requires
        0 <= i < s.len(),
    ensures
        dot_count(s.take(i + 1)) == dot_count(s.take(i)) + (if s[i] == '.' {
            1int
        } else {
            0int
        }),
{
    assert(s.take(i + 1).drop_last() =~= s.take(i));
    assert(s.take(i + 1).last() == s[i]);
}

/// Digit runs have non-negative value.
pub proof fn lemma_digits_val_nonneg(ds: Seq<char>)
    requires
        forall|k: int| 0 <= k < ds.len() ==> is_digit(#[trigger] ds[k]),
    ensures
        digits_val(ds) >= 0,
    decreases ds.len(),
{
    if ds.len() > 0 {
        lemma_digits_val_nonneg(ds.drop_last());
    }
}

/// Appending a digit multiplies the value by ten and adds the digit.
pub proof fn lemma_digits_val_push(ds: Seq<char>, c: char)
    ensures
        digits_val(ds.push(c)) == digits_val(ds) * 10 + digit_val(c),
{
    assert(ds.push(c).drop_last() =~= ds);
    assert(ds.push(c).last() == c);
}

/// The value of a digit run never falls when more digits follow.
pub proof fn lemma_digits_val_take_le(ds: Seq<char>, i: int)
    requires
        0 <= i <= ds.len(),
        forall|k: int| 0 <= k < ds.len() ==> is_digit(#[trigger] ds[k]),
    ensures
        digits_val(ds.take(i)) <= digits_val(ds),
    decreases ds.len() - i,
{
    if i < ds.len() {
        assert(ds.take(i + 1) =~= ds.take(i).push(ds[i]));
        lemma_digits_val_push(ds.take(i), ds[i]);
        lemma_digits_val_nonneg(ds.take(i));
        lemma_digits_val_take_le(ds, i + 1);
    } else {
        assert(ds.take(i) =~= ds);
    }
}

/// A digit or point test, executable.
fn is_price_c(c: char) -> (r: bool)
    ensures
        r == is_price_char(c),
{
    let u = c as u32;
    (48 <= u && u <= 57) || c == '.'
}

/// Numeric value of an ASCII digit, executable.
fn digit_of(c: char) -> (r: u64)
    requires
        is_digit(c),
    ensures
        r == digit_val(c),
{
    ((c as u32) - 48) as u64
}

/// Parses a raw price string into whole cents.
///
/// Strips `'$'`, `','` and `' '`, reads the maximal leading run of digits
/// and `'.'`, and returns its value in cents; absent or malformed or
/// out-of-range runs yield `None`.
#[verifier::rlimit(60)]
pub fn parse_price(price_str: &str) -> (r: Option<u64>)
    ensures
        r == parse_price_spec(price_str@),
{
    let n = price_str.unicode_len();
    let mut stripped: Vec<char> = Vec::new();
    let mut i: usize = 0;
    while i < n
        invariant
            n == price_str@.len(),
            i <= n,
            stripped@ == strip_seq(price_str@.take(i as int)),
        decreases n - i,
    {
        let c = price_str.get_char(i);
        proof {
            lemma_strip_take_step(price_str@, i as int);
        }
        if c != '$' && c != ',' && c != ' ' {
            stripped.push(c);
        }
        i = i + 1;
    }
    proof {
        assert(price_str@.take(n as int) =~= price_str@);
    }
    // The maximal leading numeric run of the stripped characters.
    let sl = stripped.len();
    let mut j: usize = 0;
    while j < sl && is_price_c(stripped[j])
        invariant
            sl == stripped@.len(),
            j <= sl,
            forall|k: int| 0 <= k < j ==> is_price_char(#[trigger] stripped@[k]),
        decreases sl - j,
    {
        j = j + 1;
    }
    proof {
        lemma_price_run_len_at(stripped@, j as int);
    }
    let ghost p = num_prefix(stripped@);
    proof {
        assert(p == stripped@.take(j as int));
        assert(forall|m: int| 0 <= m < j ==> p[m] == stripped@[m]);
    }
    // Shape of the run: digit and dot counts, first dot position.
    let mut digits: usize = 0;
    let mut dots: usize = 0;
    let mut dot_at: usize = j;
    let mut k: usize = 0;
    while k < j
        invariant
            j <= sl,
            sl == stripped@.len(),
            p == stripped@.take(j as int),
            forall|m: int| 0 <= m < j ==> p[m] == stripped@[m],
            forall|m: int| 0 <= m < j ==> is_price_char(#[trigger] p[m]),
            k <= j,
            digits <= k,
            dots <= k,
            digits == digit_count(p.take(k as int)),
            dots == dot_count(p.take(k as int)),
            dots == 0 ==> dot_at == j && (forall|m: int| 0 <= m < k ==> p[m] != '.'),
            dots > 0 ==> dot_at < k && p[dot_at as int] == '.' && (forall|m: int|
                0 <= m < dot_at ==> p[m] != '.'),
            dots == 1 ==> forall|m: int| dot_at < m < k ==> p[m] != '.',
        decreases j - k,
    {
        let c = stripped[k];
        proof {
            lemma_digit_count_take_step(p, k as int);
            lemma_dot_count_take_step(p, k as int);
        }
        if c == '.' {
            if dots == 0 {
                dot_at = k;
            }
            dots = dots + 1;
        } else {
            digits = digits + 1;
        }
        k = k + 1;
    }
    proof {
        assert(p.take(j as int) =~= p);
    }
    if digits == 0 || dots > 1 {
        return None;
    }
    proof {
        if dots == 0 {
            lemma_dot_pos_at(p, j as int);
        } else {
            lemma_dot_pos_at(p, dot_at as int);
        }
        assert(dot_pos(p) == dot_at);
    }
    // Everything outside the single dot is a digit.
    proof {
        assert(forall|m: int| 0 <= m < j && m != dot_at ==> is_digit(#[trigger] p[m]));
    }
    // Whole-dollar digits before the point.
    let ghost whole = p.take(dot_at as int);
    let mut acc: u64 = 0;
    let mut m: usize = 0;
    while m < dot_at
        invariant
            dot_at <= j <= sl,
            sl == stripped@.len(),
            stripped@ == strip_seq(price_str@),
            p == num_prefix(stripped@),
            p == stripped@.take(j as int),
            whole == p.take(dot_at as int),
            forall|q: int| 0 <= q < j ==> p[q] == stripped@[q],
            forall|q: int| 0 <= q < whole.len() ==> is_digit(#[trigger] whole[q]),
            forall|q: int| 0 <= q < j && q != dot_at ==> is_digit(#[trigger] p[q]),
            dot_pos(p) == dot_at,
            m <= dot_at,
            acc == digits_val(whole.take(m as int)),
            acc <= MAX_WHOLE_DOLLARS,
        decreases dot_at - m,
    {
        let c = stripped[m];
        proof {
            assert(whole[m as int] == stripped@[m as int]);
        }
        let d = digit_of(c);
        let next: u64 = acc * 10 + d;
        proof {
            assert(whole.take(m + 1) =~= whole.take(m as int).push(whole[m as int]));
            lemma_digits_val_push(whole.take(m as int), whole[m as int]);
        }
        if next > MAX_WHOLE_DOLLARS {
            proof {
                lemma_digits_val_take_le(whole, m + 1);
                lemma_digits_val_nonneg(whole);
                if dot_at == j {
                    assert(whole =~= p);
                } else {
                    assert(frac_cents(p.skip(dot_at + 1)) >= 0);
                }
                assert(cents_of(p) > MAX_PRICE_CENTS);
            }
            return None;
        }
        acc = next;
        m = m + 1;
    }
    proof {
        assert(whole.take(dot_at as int) =~= whole);
    }
    // Cents from the first two fractional digits, when a point was seen.
    let mut fc: u64 = 0;
    if dots > 0 {
        if dot_at + 1 < j {
            let d0 = digit_of(stripped[dot_at + 1]);
            fc = d0 * 10;
            if dot_at + 2 < j {
                let d1 = digit_of(stripped[dot_at + 2]);
                fc = fc + d1;
            }
        }
        proof {
            assert(fc == frac_cents(p.skip(dot_at + 1)));
        }
    } else {
        proof {
            assert(whole =~= p);
        }
    }
    let cents: u64 = acc * 100 + fc;
    proof {
        assert(cents == cents_of(p));
    }
    if cents > MAX_PRICE_CENTS {
        None
    } else {
        Some(cents)
    }
}

} // verus!
