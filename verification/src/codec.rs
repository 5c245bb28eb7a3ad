//! The persistence format.
//!
//! Both persisted stores — the seen-set and the aggregate document — are
//! written as plain text over a small self-delimiting grammar: a number is
//! its decimal digits closed by `';'`, a string is its character count
//! followed by its characters, a signed number carries a leading `'+'` or
//! `'-'`, a tag character opens each source and each optional value, and a
//! list is its element count followed by its elements.  Encoding and
//! decoding are both specified, and decoding is proved to invert encoding,
//! so a persisted store reloads to exactly the value that was saved.

use vstd::prelude::*;
use vstd::string::StrSliceExecFns;
use crate::arbitrage::{ArbitrageOpportunity, ComparisonModel, OpportunityModel, ProductWithComparison};
use crate::history::{Aggregate, AggregateModel, HistoryLog, RunSnapshot, SnapshotModel};
use crate::dedup::SeenSet;
use crate::listing::{DedupKey, Listing, ListingModel, Source};
use crate::price::{
    digit_val, digits_val, is_digit, lemma_digits_val_nonneg, lemma_digits_val_push,
    lemma_digits_val_take_le,
};

verus! {

/// Largest value whose ten-fold still fits in the decoder's accumulator.
pub const ACC_DIV10: u128 = u128::MAX / 10;

/// Last digit that may follow a saturated accumulator.
pub const ACC_MOD10: u128 = u128::MAX % 10;

/// The digit character of one decimal digit.
pub open spec fn digit_char(d: int) -> char {
    ((48 + d) as u8) as char
}

/// The decimal digits of a non-negative number, most significant first.
pub open spec fn enc_nat(n: int) -> Seq<char>
    decreases n,
{
    if n <= 9 {
        seq![digit_char(if n < 0 {
            0
        } else {
            n
        })]
    } else {
        enc_nat(n / 10).push(digit_char(n % 10))
    }
}

/// A number as it stands in the stream: its digits closed by `';'`.
pub open spec fn enc_num(n: int) -> Seq<char> {
    enc_nat(n) + seq![';']
}

/// The end of the digit run starting at `i`.
pub open spec fn digit_run_end(s: Seq<char>, i: int) -> int
    decreases s.len() - i,
{
    if 0 <= i < s.len() && is_digit(s[i]) {
        digit_run_end(s, i + 1)
    } else {
        i
    }
}

/// Reads a `';'`-closed number at `i`: its value and the position after,
/// or nothing when no digits start at `i`, the closing `';'` is missing,
/// or the value exceeds the accumulator.
pub open spec fn dec_num(s: Seq<char>, i: int) -> Option<(int, int)> {
    let j = digit_run_end(s, i);
    if j == i || j >= s.len() || s[j] != ';' {
        None
    } else {
        let v = digits_val(s.subrange(i, j));
        if v > u128::MAX {
            None
        } else {
            Some((v, j + 1))
        }
    }
}

/// A digit character is a digit and reads back to its value.
pub proof fn lemma_digit_char_val(d: int)
    requires
        0 <= d <= 9,
    ensures
        is_digit(digit_char(d)),
        digit_val(digit_char(d)) == d,
{
    assert(((48 + d) as u8) as int == 48 + d);
    assert((((48 + d) as u8) as char) as u32 == 48 + d);
}

/// The digits of a number: at least one, all decimal.
pub proof fn lemma_enc_nat_digits(n: int)
    ensures
        enc_nat(n).len() >= 1,
        forall|k: int| 0 <= k < enc_nat(n).len() ==> is_digit(#[trigger] enc_nat(n)[k]),
    decreases n,
{
    if n > 9 {
        lemma_enc_nat_digits(n / 10);
        assert forall|k: int| 0 <= k < enc_nat(n).len() implies is_digit(
            #[trigger] enc_nat(n)[k],
        ) by {
            if k < enc_nat(n).len() - 1 {
                assert(enc_nat(n)[k] == enc_nat(n / 10)[k]);
            }
        }
    }
}

/// The digits of a non-negative number read back to the number.
pub proof fn lemma_enc_nat_val(n: int)
    requires
        n >= 0,
    ensures
        digits_val(enc_nat(n)) == n,
    decreases n,
{
    if n <= 9 {
        lemma_digit_char_val(n);
        assert(enc_nat(n) == seq![digit_char(n)]);
        assert(enc_nat(n).drop_last() =~= Seq::<char>::empty());
        assert(enc_nat(n).last() == digit_char(n));
        assert(digits_val(Seq::<char>::empty()) == 0);
        assert(digits_val(enc_nat(n)) == digits_val(enc_nat(n).drop_last()) * 10 + digit_val(
            enc_nat(n).last(),
        ));
    } else {
        lemma_enc_nat_val(n / 10);
        lemma_digit_char_val(n % 10);
        lemma_digits_val_push(enc_nat(n / 10), digit_char(n % 10));
        assert((n / 10) * 10 + n % 10 == n);
    }
}

/// A scan that saw only digits before `j`, and something else (or the
/// end) at `j`, found the end of the digit run.
pub proof fn lemma_digit_run_end_at(s: Seq<char>, i: int, j: int)
    requires
        0 <= i <= j <= s.len(),
        forall|k: int| i <= k < j ==> is_digit(#[trigger] s[k]),
        j == s.len() || !is_digit(s[j]),
    ensures
        digit_run_end(s, i) == j,
    decreases j - i,
{
    if i < j {
        lemma_digit_run_end_at(s, i + 1, j);
    }
}

/// The run end never leaves the stream.
pub proof fn lemma_digit_run_end_le(s: Seq<char>, i: int)
    requires
        0 <= i <= s.len(),
    ensures
        i <= digit_run_end(s, i) <= s.len(),
    decreases s.len() - i,
{
    if i < s.len() && is_digit(s[i]) {
        lemma_digit_run_end_le(s, i + 1);
    }
}

/// Splitting a matched concatenation: when a window of the stream holds
/// `a + b`, its left part holds `a` and its right part holds `b`.
pub proof fn lemma_split_at(s: Seq<char>, i: int, a: Seq<char>, b: Seq<char>)
    requires
        0 <= i,
        i + a.len() + b.len() <= s.len(),
        s.subrange(i, i + a.len() + b.len()) == a + b,
    ensures
        s.subrange(i, i + a.len()) == a,
        s.subrange(i + a.len(), i + a.len() + b.len()) == b,
{
    let w = s.subrange(i, i + a.len() + b.len());
    assert forall|k: int| 0 <= k < a.len() implies s.subrange(i, i + a.len())[k] == a[k] by {
        assert(w[k] == (a + b)[k]);
    }
    assert(s.subrange(i, i + a.len()) =~= a);
    assert forall|k: int|
        0 <= k < b.len() implies s.subrange(i + a.len(), i + a.len() + b.len())[k] == b[k] by {
        assert(w[a.len() + k] == (a + b)[a.len() + k]);
    }
    assert(s.subrange(i + a.len(), i + a.len() + b.len()) =~= b);
}

/// A number written at `i` reads back to itself.
pub proof fn lemma_dec_enc_num(s: Seq<char>, i: int, n: int)
    requires
        0 <= n <= u128::MAX,
        0 <= i,
        i + enc_num(n).len() <= s.len(),
        s.subrange(i, i + enc_num(n).len()) == enc_num(n),
    ensures
        dec_num(s, i) == Some((n, i + enc_num(n).len())),
{
    let d = enc_nat(n);
    lemma_enc_nat_digits(n);
    lemma_enc_nat_val(n);
    lemma_split_at(s, i, d, seq![';']);
    assert forall|k: int| i <= k < i + d.len() implies is_digit(#[trigger] s[k]) by {
        assert(s.subrange(i, i + d.len())[k - i] == d[k - i]);
    }
    assert(s.subrange(i + d.len(), i + d.len() + 1)[0] == ';');
    assert(s[i + d.len()] == ';');
    assert(!is_digit(';'));
    lemma_digit_run_end_at(s, i, i + d.len());
    assert(s.subrange(i, i + d.len()) == d);
}

/// Writes the decimal digits of `n` onto the stream.
fn push_nat(out: &mut Vec<char>, n: u128)
    ensures
        final(out)@ == old(out)@ + enc_nat(n as int),
    decreases n,
{
    if n <= 9 {
        let c: char = ((48 + n as u32) as u8) as char;
        assert(c == digit_char(n as int));
        out.push(c);
        proof {
            assert(out@ =~= old(out)@ + enc_nat(n as int));
        }
    } else {
        push_nat(out, n / 10);
        let c: char = ((48 + (n % 10) as u32) as u8) as char;
        assert(c == digit_char(n as int % 10));
        out.push(c);
        proof {
            assert(out@ =~= old(out)@ + enc_nat(n as int));
        }
    }
}

/// Writes a `';'`-closed number onto the stream.
fn push_num(out: &mut Vec<char>, n: u128)
    ensures
        final(out)@ == old(out)@ + enc_num(n as int),
{
    push_nat(out, n);
    out.push(';');
    proof {
        assert(out@ =~= old(out)@ + enc_num(n as int));
    }
}

/// A decimal digit test, executable.
fn is_digit_c(c: char) -> (r: bool)
    ensures
        r == is_digit(c),
{
    let u = c as u32;
    48 <= u && u <= 57
}

/// Reads a `';'`-closed number at `i`.
fn read_num(s: &Vec<char>, i: usize) -> (r: Option<(u128, usize)>)
    requires
        i <= s@.len(),
    ensures
        match r {
            Some((v, j)) => i < j <= s@.len() && dec_num(s@, i as int) == Some((
                v as int,
                j as int,
            )),
            None => dec_num(s@, i as int) is None,
        },
{
    let n = s.len();
    let mut k: usize = i;
    let mut acc: u128 = 0;
    let mut over: bool = false;
    while k < n && is_digit_c(s[k])
        invariant
            i <= k <= n,
            n == s@.len(),
            forall|q: int| i <= q < k ==> is_digit(#[trigger] s@[q]),
            !over ==> acc == digits_val(s@.subrange(i as int, k as int)),
            over ==> digits_val(s@.subrange(i as int, k as int)) > u128::MAX,
        decreases n - k,
    {
        let d: u128 = ((s[k] as u32) - 48) as u128;
        proof {
            assert(s@.subrange(i as int, k + 1).drop_last() =~= s@.subrange(i as int, k as int));
            lemma_digits_val_push(
                s@.subrange(i as int, k as int),
                s@[k as int],
            );
            assert(s@.subrange(i as int, k + 1) =~= s@.subrange(i as int, k as int).push(
                s@[k as int],
            ));
        }
        if over || acc > ACC_DIV10 || (acc == ACC_DIV10 && d > ACC_MOD10) {
            proof {
                if !over {
                    assert(acc * 10 + d > u128::MAX);
                } else {
                    lemma_digits_val_nonneg(s@.subrange(i as int, k as int));
                    assert(digits_val(s@.subrange(i as int, k + 1)) > u128::MAX);
                }
            }
            over = true;
        } else {
            acc = acc * 10 + d;
        }
        k = k + 1;
    }
    proof {
        lemma_digit_run_end_at(s@, i as int, k as int);
    }
    if k == i {
        return None;
    }
    if k == n {
        return None;
    }
    if s[k] != ';' {
        return None;
    }
    if over {
        return None;
    }
    Some((acc, k + 1))
}

/// A string as it stands in the stream: its character count, then its
/// characters.
pub open spec fn enc_str(t: Seq<char>) -> Seq<char> {
    enc_num(t.len() as int) + t
}

/// Reads a string at `i`.
pub open spec fn dec_str(s: Seq<char>, i: int) -> Option<(Seq<char>, int)> {
    match dec_num(s, i) {
        None => None,
        Some((n, j)) => if j + n > s.len() {
            None
        } else {
            Some((s.subrange(j, j + n), j + n))
        },
    }
}

/// A string written at `i` reads back to itself.
pub proof fn lemma_dec_enc_str(s: Seq<char>, i: int, t: Seq<char>)
    requires
        t.len() <= u128::MAX,
        0 <= i,
        i + enc_str(t).len() <= s.len(),
        s.subrange(i, i + enc_str(t).len()) == enc_str(t),
    ensures
        dec_str(s, i) == Some((t, i + enc_str(t).len())),
{
    let a = enc_num(t.len() as int);
    lemma_split_at(s, i, a, t);
    lemma_dec_enc_num(s, i, t.len() as int);
}

/// Writes the characters of `t` onto the stream.
fn push_chars(out: &mut Vec<char>, t: &str)
    ensures
        final(out)@ == old(out)@ + t@,
{
    let n = t.unicode_len();
    let mut i: usize = 0;
    while i < n
        invariant
            n == t@.len(),
            i <= n,
            out@ == old(out)@ + t@.take(i as int),
        decreases n - i,
    {
        out.push(t.get_char(i));
        proof {
            assert(out@ =~= old(out)@ + t@.take(i + 1));
        }
        i = i + 1;
    }
    proof {
        assert(t@.take(n as int) =~= t@);
    }
}

/// Writes a string, count first, onto the stream.
fn push_str(out: &mut Vec<char>, t: &str)
    ensures
        final(out)@ == old(out)@ + enc_str(t@),
{
    let n = t.unicode_len();
    push_num(out, n as u128);
    push_chars(out, t);
    proof {
        assert(out@ =~= old(out)@ + enc_str(t@));
    }
}

/// Relies on std's `String::push`: appends the given character to the end
/// of the string.
#[verifier::external_body]
fn push_char(s: &mut String, c: char)
    ensures
        final(s)@ == old(s)@.push(c),
{
    s.push(c);
}

/// Reads a string at `i`.
fn read_str(s: &Vec<char>, i: usize) -> (r: Option<(String, usize)>)
    requires
        i <= s@.len(),
    ensures
        match r {
            Some((t, j)) => i < j <= s@.len() && dec_str(s@, i as int) == Some((t@, j as int)),
            None => dec_str(s@, i as int) is None,
        },
{
    let num = read_num(s, i);
    if num.is_none() {
        return None;
    }
    let (n, j) = num.unwrap();
    if n > (s.len() - j) as u128 {
        return None;
    }
    let cnt = n as usize;
    let end = j + cnt;
    let mut t = String::new();
    let mut k: usize = j;
    while k < end
        invariant
            end == j + cnt,
            end <= s@.len(),
            j <= k <= end,
            t@ == s@.subrange(j as int, k as int),
        decreases end - k,
    {
        push_char(&mut t, s[k]);
        proof {
            assert(t@ =~= s@.subrange(j as int, k + 1));
        }
        k = k + 1;
    }
    Some((t, j + cnt))
}

/// The tag character of a source.
pub open spec fn source_char(src: Source) -> char {
    match src {
        Source::BuySide => 'b',
        Source::ResaleSide => 'r',
        Source::ReferenceSoldSide => 's',
    }
}

/// A source as it stands in the stream: its tag character.
pub open spec fn enc_source(src: Source) -> Seq<char> {
    seq![source_char(src)]
}

/// Reads a source tag at `i`.
pub open spec fn dec_source(s: Seq<char>, i: int) -> Option<(Source, int)> {
    if i >= s.len() {
        None
    } else if s[i] == 'b' {
        Some((Source::BuySide, i + 1))
    } else if s[i] == 'r' {
        Some((Source::ResaleSide, i + 1))
    } else if s[i] == 's' {
        Some((Source::ReferenceSoldSide, i + 1))
    } else {
        None
    }
}

/// A source written at `i` reads back to itself.
pub proof fn lemma_dec_enc_source(s: Seq<char>, i: int, src: Source)
    requires
        0 <= i,
        i + 1 <= s.len(),
        s.subrange(i, i + 1) == enc_source(src),
    ensures
        dec_source(s, i) == Some((src, i + 1)),
{
    assert(s.subrange(i, i + 1)[0] == source_char(src));
}

/// Writes a source tag onto the stream.
fn push_source(out: &mut Vec<char>, src: Source)
    ensures
        final(out)@ == old(out)@ + enc_source(src),
{
    let c: char = match src {
        Source::BuySide => 'b',
        Source::ResaleSide => 'r',
        Source::ReferenceSoldSide => 's',
    };
    out.push(c);
    proof {
        assert(out@ =~= old(out)@ + enc_source(src));
    }
}

/// Reads a source tag at `i`.
fn read_source(s: &Vec<char>, i: usize) -> (r: Option<(Source, usize)>)
    requires
        i <= s@.len(),
    ensures
        match r {
            Some((src, j)) => i < j <= s@.len() && dec_source(s@, i as int) == Some((
                src,
                j as int,
            )),
            None => dec_source(s@, i as int) is None,
        },
{
    if i >= s.len() {
        return None;
    }
    let c = s[i];
    if c == 'b' {
        Some((Source::BuySide, i + 1))
    } else if c == 'r' {
        Some((Source::ResaleSide, i + 1))
    } else if c == 's' {
        Some((Source::ReferenceSoldSide, i + 1))
    } else {
        None
    }
}

/// A number bounded by the machine word, as counts and totals are.
pub open spec fn wf_count(n: int) -> bool {
    0 <= n <= usize::MAX
}

/// Reads a count at `i`: a number that must fit the machine word.
pub open spec fn dec_count(s: Seq<char>, i: int) -> Option<(int, int)> {
    match dec_num(s, i) {
        None => None,
        Some((v, j)) => if v > usize::MAX {
            None
        } else {
            Some((v, j))
        },
    }
}

/// A count written at `i` reads back to itself.
pub proof fn lemma_dec_enc_count(s: Seq<char>, i: int, n: int)
    requires
        wf_count(n),
        0 <= i,
        i + enc_num(n).len() <= s.len(),
        s.subrange(i, i + enc_num(n).len()) == enc_num(n),
    ensures
        dec_count(s, i) == Some((n, i + enc_num(n).len())),
{
    lemma_dec_enc_num(s, i, n);
}

/// Reads a count at `i`.
fn read_count(s: &Vec<char>, i: usize) -> (r: Option<(usize, usize)>)
    requires
        i <= s@.len(),
    ensures
        match r {
            Some((v, j)) => i < j <= s@.len() && dec_count(s@, i as int) == Some((
                v as int,
                j as int,
            )),
            None => dec_count(s@, i as int) is None,
        },
{
    let num = read_num(s, i);
    if num.is_none() {
        return None;
    }
    let (v, j) = num.unwrap();
    if v > usize::MAX as u128 {
        return None;
    }
    Some((v as usize, j))
}

/// Reads a 64-bit number at `i`.
pub open spec fn dec_u64(s: Seq<char>, i: int) -> Option<(u64, int)> {
    match dec_num(s, i) {
        None => None,
        Some((v, j)) => if v > u64::MAX {
            None
        } else {
            Some((v as u64, j))
        },
    }
}

/// A 64-bit number written at `i` reads back to itself.
pub proof fn lemma_dec_enc_u64(s: Seq<char>, i: int, n: u64)
    requires
        0 <= i,
        i + enc_num(n as int).len() <= s.len(),
        s.subrange(i, i + enc_num(n as int).len()) == enc_num(n as int),
    ensures
        dec_u64(s, i) == Some((n, i + enc_num(n as int).len())),
{
    lemma_dec_enc_num(s, i, n as int);
}

/// Reads a 64-bit number at `i`.
fn read_u64(s: &Vec<char>, i: usize) -> (r: Option<(u64, usize)>)
    requires
        i <= s@.len(),
    ensures
        match r {
            Some((v, j)) => i < j <= s@.len() && dec_u64(s@, i as int) == Some((v, j as int)),
            None => dec_u64(s@, i as int) is None,
        },
{
    let num = read_num(s, i);
    if num.is_none() {
        return None;
    }
    let (v, j) = num.unwrap();
    if v > u64::MAX as u128 {
        return None;
    }
    Some((v as u64, j))
}

/// Reads a 32-bit number at `i`.
pub open spec fn dec_u32(s: Seq<char>, i: int) -> Option<(u32, int)> {
    match dec_num(s, i) {
        None => None,
        Some((v, j)) => if v > u32::MAX {
            None
        } else {
            Some((v as u32, j))
        },
    }
}

/// A 32-bit number written at `i` reads back to itself.
pub proof fn lemma_dec_enc_u32(s: Seq<char>, i: int, n: u32)
    requires
        0 <= i,
        i + enc_num(n as int).len() <= s.len(),
        s.subrange(i, i + enc_num(n as int).len()) == enc_num(n as int),
    ensures
        dec_u32(s, i) == Some((n, i + enc_num(n as int).len())),
{
    lemma_dec_enc_num(s, i, n as int);
}

/// Reads a 32-bit number at `i`.
fn read_u32(s: &Vec<char>, i: usize) -> (r: Option<(u32, usize)>)
    requires
        i <= s@.len(),
    ensures
        match r {
            Some((v, j)) => i < j <= s@.len() && dec_u32(s@, i as int) == Some((v, j as int)),
            None => dec_u32(s@, i as int) is None,
        },
{
    let num = read_num(s, i);
    if num.is_none() {
        return None;
    }
    let (v, j) = num.unwrap();
    if v > u32::MAX as u128 {
        return None;
    }
    Some((v as u32, j))
}

/// The magnitude of a signed value.
pub open spec fn abs_of(v: int) -> int {
    if v >= 0 {
        v
    } else {
        -v
    }
}

/// A signed number as it stands in the stream: its sign, then its
/// magnitude.
pub open spec fn enc_signed(v: int) -> Seq<char> {
    (if v >= 0 {
        seq!['+']
    } else {
        seq!['-']
    }) + enc_num(abs_of(v))
}

/// Reads a signed 64-bit number at `i`.
pub open spec fn dec_i64(s: Seq<char>, i: int) -> Option<(i64, int)> {
    if i >= s.len() {
        None
    } else if s[i] == '+' {
        match dec_num(s, i + 1) {
            None => None,
            Some((v, j)) => if v > i64::MAX {
                None
            } else {
                Some((v as i64, j))
            },
        }
    } else if s[i] == '-' {
        match dec_num(s, i + 1) {
            None => None,
            Some((v, j)) => if -v < i64::MIN {
                None
            } else {
                Some(((-v) as i64, j))
            },
        }
    } else {
        None
    }
}

/// A signed 64-bit number written at `i` reads back to itself.
pub proof fn lemma_dec_enc_i64(s: Seq<char>, i: int, v: i64)
    requires
        0 <= i,
        i + enc_signed(v as int).len() <= s.len(),
        s.subrange(i, i + enc_signed(v as int).len()) == enc_signed(v as int),
    ensures
        dec_i64(s, i) == Some((v, i + enc_signed(v as int).len())),
{
    let sign = if v >= 0 {
        seq!['+']
    } else {
        seq!['-']
    };
    let mag = enc_num(abs_of(v as int));
    lemma_split_at(s, i, sign, mag);
    assert(s.subrange(i, i + 1)[0] == sign[0]);
    lemma_dec_enc_num(s, i + 1, abs_of(v as int));
}

/// Writes a signed 64-bit number onto the stream.
fn push_i64(out: &mut Vec<char>, v: i64)
    ensures
        final(out)@ == old(out)@ + enc_signed(v as int),
{
    if v >= 0 {
        out.push('+');
        proof {
            assert(out@ =~= old(out)@ + seq!['+']);
        }
        push_num(out, v as u128);
    } else {
        out.push('-');
        proof {
            assert(out@ =~= old(out)@ + seq!['-']);
        }
        let mag: u128 = if v == i64::MIN {
            9223372036854775808u128
        } else {
            (-v) as u128
        };
        assert(mag == abs_of(v as int));
        push_num(out, mag);
    }
    proof {
        assert(out@ =~= old(out)@ + enc_signed(v as int));
    }
}

/// Reads a signed 64-bit number at `i`.
fn read_i64(s: &Vec<char>, i: usize) -> (r: Option<(i64, usize)>)
    requires
        i <= s@.len(),
    ensures
        match r {
            Some((v, j)) => i < j <= s@.len() && dec_i64(s@, i as int) == Some((v, j as int)),
            None => dec_i64(s@, i as int) is None,
        },
{
    if i >= s.len() {
        return None;
    }
    let c = s[i];
    if c == '+' {
        let num = read_num(s, i + 1);
        if num.is_none() {
            return None;
        }
        let (v, j) = num.unwrap();
        if v > i64::MAX as u128 {
            return None;
        }
        Some((v as i64, j))
    } else if c == '-' {
        let num = read_num(s, i + 1);
        if num.is_none() {
            return None;
        }
        let (v, j) = num.unwrap();
        if v > 9223372036854775808u128 {
            return None;
        }
        let value: i64 = if v == 9223372036854775808u128 {
            i64::MIN
        } else {
            -(v as i64)
        };
        proof {
            assert(value as int == -(v as int));
        }
        Some((value, j))
    } else {
        None
    }
}

/// Reads a signed 128-bit number at `i`.
pub open spec fn dec_i128(s: Seq<char>, i: int) -> Option<(i128, int)> {
    if i >= s.len() {
        None
    } else if s[i] == '+' {
        match dec_num(s, i + 1) {
            None => None,
            Some((v, j)) => if v > i128::MAX {
                None
            } else {
                Some((v as i128, j))
            },
        }
    } else if s[i] == '-' {
        match dec_num(s, i + 1) {
            None => None,
            Some((v, j)) => if -v < i128::MIN {
                None
            } else {
                Some(((-v) as i128, j))
            },
        }
    } else {
        None
    }
}

/// A signed 128-bit number written at `i` reads back to itself.
pub proof fn lemma_dec_enc_i128(s: Seq<char>, i: int, v: i128)
    requires
        0 <= i,
        i + enc_signed(v as int).len() <= s.len(),
        s.subrange(i, i + enc_signed(v as int).len()) == enc_signed(v as int),
    ensures
        dec_i128(s, i) == Some((v, i + enc_signed(v as int).len())),
{
    let sign = if v >= 0 {
        seq!['+']
    } else {
        seq!['-']
    };
    let mag = enc_num(abs_of(v as int));
    lemma_split_at(s, i, sign, mag);
    assert(s.subrange(i, i + 1)[0] == sign[0]);
    lemma_dec_enc_num(s, i + 1, abs_of(v as int));
}

/// Writes a signed 128-bit number onto the stream.
fn push_i128(out: &mut Vec<char>, v: i128)
    ensures
        final(out)@ == old(out)@ + enc_signed(v as int),
{
    if v >= 0 {
        out.push('+');
        proof {
            assert(out@ =~= old(out)@ + seq!['+']);
        }
        push_num(out, v as u128);
    } else {
        out.push('-');
        proof {
            assert(out@ =~= old(out)@ + seq!['-']);
        }
        let mag: u128 = if v == i128::MIN {
            170141183460469231731687303715884105728u128
        } else {
            (-v) as u128
        };
        assert(mag == abs_of(v as int));
        push_num(out, mag);
    }
    proof {
        assert(out@ =~= old(out)@ + enc_signed(v as int));
    }
}

/// Reads a signed 128-bit number at `i`.
fn read_i128(s: &Vec<char>, i: usize) -> (r: Option<(i128, usize)>)
    requires
        i <= s@.len(),
    ensures
        match r {
            Some((v, j)) => i < j <= s@.len() && dec_i128(s@, i as int) == Some((v, j as int)),
            None => dec_i128(s@, i as int) is None,
        },
{
    if i >= s.len() {
        return None;
    }
    let c = s[i];
    if c == '+' {
        let num = read_num(s, i + 1);
        if num.is_none() {
            return None;
        }
        let (v, j) = num.unwrap();
        if v > i128::MAX as u128 {
            return None;
        }
        Some((v as i128, j))
    } else if c == '-' {
        let num = read_num(s, i + 1);
        if num.is_none() {
            return None;
        }
        let (v, j) = num.unwrap();
        if v > 170141183460469231731687303715884105728u128 {
            return None;
        }
        let value: i128 = if v == 170141183460469231731687303715884105728u128 {
            i128::MIN
        } else {
            -(v as i128)
        };
        proof {
            assert(value as int == -(v as int));
        }
        Some((value, j))
    } else {
        None
    }
}

/// A listing as it stands in the stream: name, price, URL, source.
pub open spec fn enc_listing(l: ListingModel) -> Seq<char> {
    enc_str(l.name) + enc_str(l.price) + enc_str(l.url) + enc_source(l.source)
}

/// A listing whose strings the stream's counts can express.
pub open spec fn wf_listing(l: ListingModel) -> bool {
    l.name.len() <= u128::MAX && l.price.len() <= u128::MAX && l.url.len() <= u128::MAX
}

/// Reads a listing at `i`.
pub open spec fn dec_listing(s: Seq<char>, i: int) -> Option<(ListingModel, int)> {
    match dec_str(s, i) {
        None => None,
        Some((name, i1)) => match dec_str(s, i1) {
            None => None,
            Some((price, i2)) => match dec_str(s, i2) {
                None => None,
                Some((url, i3)) => match dec_source(s, i3) {
                    None => None,
                    Some((source, i4)) => Some(
                        (ListingModel { name, price, url, source }, i4),
                    ),
                },
            },
        },
    }
}

/// A listing written at `i` reads back to itself.
pub proof fn lemma_dec_enc_listing(s: Seq<char>, i: int, l: ListingModel)
    requires
        wf_listing(l),
        0 <= i,
        i + enc_listing(l).len() <= s.len(),
        s.subrange(i, i + enc_listing(l).len()) == enc_listing(l),
    ensures
        dec_listing(s, i) == Some((l, i + enc_listing(l).len())),
{
    let e1 = enc_str(l.name);
    let e2 = enc_str(l.price);
    let e3 = enc_str(l.url);
    let e4 = enc_source(l.source);
    assert(enc_listing(l) =~= e1 + (e2 + (e3 + e4)));
    lemma_split_at(s, i, e1, e2 + (e3 + e4));
    lemma_dec_enc_str(s, i, l.name);
    let i1 = i + e1.len();
    lemma_split_at(s, i1, e2, e3 + e4);
    lemma_dec_enc_str(s, i1, l.price);
    let i2 = i1 + e2.len();
    lemma_split_at(s, i2, e3, e4);
    lemma_dec_enc_str(s, i2, l.url);
    let i3 = i2 + e3.len();
    lemma_dec_enc_source(s, i3, l.source);
}

/// Writes a listing onto the stream.
fn push_listing(out: &mut Vec<char>, l: &Listing)
    ensures
        final(out)@ == old(out)@ + enc_listing(l@),
{
    push_str(out, l.name.as_str());
    push_str(out, l.price.as_str());
    push_str(out, l.url.as_str());
    push_source(out, l.source);
    proof {
        assert(out@ =~= old(out)@ + enc_listing(l@));
    }
}

/// Reads a listing at `i`.
fn read_listing(s: &Vec<char>, i: usize) -> (r: Option<(Listing, usize)>)
    requires
        i <= s@.len(),
    ensures
        match r {
            Some((l, j)) => i < j <= s@.len() && dec_listing(s@, i as int) == Some((
                l@,
                j as int,
            )),
            None => dec_listing(s@, i as int) is None,
        },
{
    let r1 = read_str(s, i);
    if r1.is_none() {
        return None;
    }
    let (name, i1) = r1.unwrap();
    let r2 = read_str(s, i1);
    if r2.is_none() {
        return None;
    }
    let (price, i2) = r2.unwrap();
    let r3 = read_str(s, i2);
    if r3.is_none() {
        return None;
    }
    let (url, i3) = r3.unwrap();
    let r4 = read_source(s, i3);
    if r4.is_none() {
        return None;
    }
    let (source, i4) = r4.unwrap();
    Some((Listing { name, price, url, source }, i4))
}

/// The elements of a listing list, one after the other.
pub open spec fn enc_listings_cat(xs: Seq<ListingModel>) -> Seq<char>
    decreases xs.len(),
{
    if xs.len() == 0 {
        Seq::empty()
    } else {
        enc_listing(xs[0]) + enc_listings_cat(xs.drop_first())
    }
}

/// A listing list as it stands in the stream: its count, then its
/// elements.
pub open spec fn enc_listings(xs: Seq<ListingModel>) -> Seq<char> {
    enc_num(xs.len() as int) + enc_listings_cat(xs)
}

/// A listing list the stream can express.
pub open spec fn wf_listings(xs: Seq<ListingModel>) -> bool {
    xs.len() <= usize::MAX && forall|q: int| 0 <= q < xs.len() ==> wf_listing(#[trigger] xs[q])
}

/// Reads `cnt` listings at `i`.
pub open spec fn dec_listings_loop(s: Seq<char>, i: int, cnt: int) -> Option<
    (Seq<ListingModel>, int),
>
    decreases cnt,
{
    if cnt <= 0 {
        Some((Seq::empty(), i))
    } else {
        match dec_listing(s, i) {
            None => None,
            Some((x, j)) => match dec_listings_loop(s, j, cnt - 1) {
                None => None,
                Some((xs, k)) => Some((seq![x] + xs, k)),
            },
        }
    }
}

/// Reads a listing list at `i`.
pub open spec fn dec_listings(s: Seq<char>, i: int) -> Option<(Seq<ListingModel>, int)> {
    match dec_count(s, i) {
        None => None,
        Some((n, j)) => dec_listings_loop(s, j, n),
    }
}

/// Concatenated listings written at `i` read back to themselves.
proof fn lemma_dec_enc_listings_cat(s: Seq<char>, i: int, xs: Seq<ListingModel>)
    requires
        forall|q: int| 0 <= q < xs.len() ==> wf_listing(#[trigger] xs[q]),
        0 <= i,
        i + enc_listings_cat(xs).len() <= s.len(),
        s.subrange(i, i + enc_listings_cat(xs).len()) == enc_listings_cat(xs),
    ensures
        dec_listings_loop(s, i, xs.len() as int) == Some((xs, i + enc_listings_cat(xs).len())),
    decreases xs.len(),
{
    if xs.len() == 0 {
    } else {
        let e0 = enc_listing(xs[0]);
        let rest = enc_listings_cat(xs.drop_first());
        lemma_split_at(s, i, e0, rest);
        lemma_dec_enc_listing(s, i, xs[0]);
        assert forall|q: int| 0 <= q < xs.drop_first().len() implies wf_listing(
            #[trigger] xs.drop_first()[q],
        ) by {
            assert(xs.drop_first()[q] == xs[q + 1]);
        }
        lemma_dec_enc_listings_cat(s, i + e0.len(), xs.drop_first());
        assert(seq![xs[0]] + xs.drop_first() =~= xs);
    }
}

/// A listing list written at `i` reads back to itself.
pub proof fn lemma_dec_enc_listings(s: Seq<char>, i: int, xs: Seq<ListingModel>)
    requires
        wf_listings(xs),
        0 <= i,
        i + enc_listings(xs).len() <= s.len(),
        s.subrange(i, i + enc_listings(xs).len()) == enc_listings(xs),
    ensures
        dec_listings(s, i) == Some((xs, i + enc_listings(xs).len())),
{
    let a = enc_num(xs.len() as int);
    lemma_split_at(s, i, a, enc_listings_cat(xs));
    lemma_dec_enc_count(s, i, xs.len() as int);
    lemma_dec_enc_listings_cat(s, i + a.len(), xs);
}

/// Writes a listing list, count first, onto the stream.
fn push_listings(out: &mut Vec<char>, xs: &Vec<Listing>)
    ensures
        final(out)@ == old(out)@ + enc_listings(xs.deep_view()),
{
    let n = xs.len();
    push_num(out, n as u128);
    let ghost xdv = xs.deep_view();
    let mut i: usize = 0;
    while i < n
        invariant
            n == xs@.len(),
            xdv == xs.deep_view(),
            i <= n,
            out@ == old(out)@ + enc_num(n as int) + enc_listings_cat(xdv.take(i as int)),
        decreases n - i,
    {
        push_listing(out, &xs[i]);
        proof {
            lemma_enc_cat_take_step_listing(xdv, i as int);
            assert(out@ =~= old(out)@ + enc_num(n as int) + enc_listings_cat(
                xdv.take(i + 1),
            ));
        }
        i = i + 1;
    }
    proof {
        assert(xdv.take(n as int) =~= xdv);
        assert(out@ =~= old(out)@ + enc_listings(xdv));
    }
}

/// One more element extends the concatenation at its end.
proof fn lemma_enc_cat_take_step_listing(xs: Seq<ListingModel>, i: int)
    requires
        0 <= i < xs.len(),
    ensures
        enc_listings_cat(xs.take(i + 1)) == enc_listings_cat(xs.take(i)) + enc_listing(xs[i]),
    decreases i,
{
    if i == 0 {
        assert(xs.take(1).drop_first() =~= xs.take(0));
        assert(enc_listings_cat(xs.take(1)) =~= enc_listings_cat(xs.take(0)) + enc_listing(
            xs[0],
        ));
    } else {
        assert(xs.take(i + 1).drop_first() =~= xs.drop_first().take(i));
        assert(xs.take(i).drop_first() =~= xs.drop_first().take(i - 1));
        lemma_enc_cat_take_step_listing(xs.drop_first(), i - 1);
        assert(xs.drop_first()[i - 1] == xs[i]);
        assert(enc_listings_cat(xs.take(i + 1)) =~= enc_listings_cat(xs.take(i)) + enc_listing(
            xs[i],
        ));
    }
}

/// Reads a listing list at `i`.
fn read_listings(s: &Vec<char>, i: usize) -> (r: Option<(Vec<Listing>, usize)>)
    requires
        i <= s@.len(),
    ensures
        match r {
            Some((xs, j)) => i < j <= s@.len() && dec_listings(s@, i as int) == Some((
                xs.deep_view(),
                j as int,
            )),
            None => dec_listings(s@, i as int) is None,
        },
{
    let rc = read_count(s, i);
    if rc.is_none() {
        return None;
    }
    let (cnt, j0) = rc.unwrap();
    let mut acc: Vec<Listing> = Vec::new();
    let mut cur: usize = j0;
    let mut rem: usize = cnt;
    proof {
        match dec_listings_loop(s@, j0 as int, cnt as int) {
            Some((t, k)) => {
                assert(acc.deep_view() + t =~= t);
            },
            None => {},
        }
    }
    while rem > 0
        invariant
            j0 <= cur <= s@.len(),
            rem <= cnt,
            dec_count(s@, i as int) == Some((cnt as int, j0 as int)),
            dec_listings_loop(s@, j0 as int, cnt as int) == match dec_listings_loop(
                s@,
                cur as int,
                rem as int,
            ) {
                Some((tail, k)) => Some((acc.deep_view() + tail, k)),
                None => None::<(Seq<ListingModel>, int)>,
            },
        decreases rem,
    {
        let ghost acc0 = acc.deep_view();
        let ghost cur0 = cur as int;
        let ghost rem0 = rem as int;
        let re = read_listing(s, cur);
        if re.is_none() {
            return None;
        }
        let (x, j) = re.unwrap();
        acc.push(x);
        cur = j;
        rem = rem - 1;
        proof {
            assert(acc.deep_view() =~= acc0.push(x@));
            match dec_listings_loop(s@, cur as int, rem as int) {
                Some((t, k)) => {
                    assert(dec_listings_loop(s@, cur0, rem0) == Some((seq![x@] + t, k)));
                    assert(acc0 + (seq![x@] + t) =~= acc0.push(x@) + t);
                },
                None => {
                    assert(dec_listings_loop(s@, cur0, rem0) is None);
                },
            }
        }
    }
    proof {
        assert(dec_listings_loop(s@, cur as int, rem as int) == Some((
            Seq::<ListingModel>::empty(),
            cur as int,
        )));
        assert(acc.deep_view() + Seq::<ListingModel>::empty() =~= acc.deep_view());
    }
    Some((acc, cur))
}

/// A dedup key as it stands in the stream: source, then query-less URL.
pub open spec fn enc_key(k: (Source, Seq<char>)) -> Seq<char> {
    enc_source(k.0) + enc_str(k.1)
}

/// A key the stream can express.
pub open spec fn wf_key(k: (Source, Seq<char>)) -> bool {
    k.1.len() <= u128::MAX
}

/// Reads a dedup key at `i`.
pub open spec fn dec_key(s: Seq<char>, i: int) -> Option<((Source, Seq<char>), int)> {
    match dec_source(s, i) {
        None => None,
        Some((src, i1)) => match dec_str(s, i1) {
            None => None,
            Some((url, i2)) => Some(((src, url), i2)),
        },
    }
}

/// A key written at `i` reads back to itself.
pub proof fn lemma_dec_enc_key(s: Seq<char>, i: int, k: (Source, Seq<char>))
    requires
        wf_key(k),
        0 <= i,
        i + enc_key(k).len() <= s.len(),
        s.subrange(i, i + enc_key(k).len()) == enc_key(k),
    ensures
        dec_key(s, i) == Some((k, i + enc_key(k).len())),
{
    lemma_split_at(s, i, enc_source(k.0), enc_str(k.1));
    lemma_dec_enc_source(s, i, k.0);
    lemma_dec_enc_str(s, i + 1, k.1);
}

/// The elements of a key list, one after the other.
pub open spec fn enc_keys_cat(ks: Seq<(Source, Seq<char>)>) -> Seq<char>
    decreases ks.len(),
{
    if ks.len() == 0 {
        Seq::empty()
    } else {
        enc_key(ks[0]) + enc_keys_cat(ks.drop_first())
    }
}

/// The seen-set as it stands in its file: its key count, then its keys.
pub open spec fn enc_seen(ks: Seq<(Source, Seq<char>)>) -> Seq<char> {
    enc_num(ks.len() as int) + enc_keys_cat(ks)
}

/// A key list the stream can express.
pub open spec fn wf_keys(ks: Seq<(Source, Seq<char>)>) -> bool {
    ks.len() <= usize::MAX && forall|q: int| 0 <= q < ks.len() ==> wf_key(#[trigger] ks[q])
}

/// Reads `cnt` keys at `i`.
pub open spec fn dec_keys_loop(s: Seq<char>, i: int, cnt: int) -> Option<
    (Seq<(Source, Seq<char>)>, int),
>
    decreases cnt,
{
    if cnt <= 0 {
        Some((Seq::empty(), i))
    } else {
        match dec_key(s, i) {
            None => None,
            Some((x, j)) => match dec_keys_loop(s, j, cnt - 1) {
                None => None,
                Some((xs, k)) => Some((seq![x] + xs, k)),
            },
        }
    }
}

/// What the seen-set file decodes to: its keys, which must fill the whole
/// stream.
pub open spec fn dec_seen(s: Seq<char>) -> Option<Seq<(Source, Seq<char>)>> {
    match dec_count(s, 0) {
        None => None,
        Some((n, j)) => match dec_keys_loop(s, j, n) {
            None => None,
            Some((ks, k)) => if k == s.len() {
                Some(ks)
            } else {
                None
            },
        },
    }
}

/// Concatenated keys written at `i` read back to themselves.
proof fn lemma_dec_enc_keys_cat(s: Seq<char>, i: int, ks: Seq<(Source, Seq<char>)>)
    requires
        forall|q: int| 0 <= q < ks.len() ==> wf_key(#[trigger] ks[q]),
        0 <= i,
        i + enc_keys_cat(ks).len() <= s.len(),
        s.subrange(i, i + enc_keys_cat(ks).len()) == enc_keys_cat(ks),
    ensures
        dec_keys_loop(s, i, ks.len() as int) == Some((ks, i + enc_keys_cat(ks).len())),
    decreases ks.len(),
{
    if ks.len() > 0 {
        let e0 = enc_key(ks[0]);
        let rest = enc_keys_cat(ks.drop_first());
        lemma_split_at(s, i, e0, rest);
        lemma_dec_enc_key(s, i, ks[0]);
        assert forall|q: int| 0 <= q < ks.drop_first().len() implies wf_key(
            #[trigger] ks.drop_first()[q],
        ) by {
            assert(ks.drop_first()[q] == ks[q + 1]);
        }
        lemma_dec_enc_keys_cat(s, i + e0.len(), ks.drop_first());
        assert(seq![ks[0]] + ks.drop_first() =~= ks);
    }
}

/// The seen-set round trip, as a law: saving a seen-set and loading what
/// was saved yields back exactly the same keys, in the same order.
pub proof fn lemma_seen_round_trip(ks: Seq<(Source, Seq<char>)>)
    requires
        wf_keys(ks),
    ensures
        dec_seen(enc_seen(ks)) == Some(ks),
{
    let s = enc_seen(ks);
    let a = enc_num(ks.len() as int);
    assert(s.subrange(0, s.len() as int) =~= s);
    lemma_split_at(s, 0, a, enc_keys_cat(ks));
    lemma_dec_enc_count(s, 0, ks.len() as int);
    lemma_dec_enc_keys_cat(s, a.len() as int, ks);
}

/// One more key extends the concatenation at its end.
proof fn lemma_enc_cat_take_step_key(ks: Seq<(Source, Seq<char>)>, i: int)
    requires
        0 <= i < ks.len(),
    ensures
        enc_keys_cat(ks.take(i + 1)) == enc_keys_cat(ks.take(i)) + enc_key(ks[i]),
    decreases i,
{
    if i == 0 {
        assert(ks.take(1).drop_first() =~= ks.take(0));
        assert(enc_keys_cat(ks.take(1)) =~= enc_keys_cat(ks.take(0)) + enc_key(ks[0]));
    } else {
        assert(ks.take(i + 1).drop_first() =~= ks.drop_first().take(i));
        assert(ks.take(i).drop_first() =~= ks.drop_first().take(i - 1));
        lemma_enc_cat_take_step_key(ks.drop_first(), i - 1);
        assert(ks.drop_first()[i - 1] == ks[i]);
        assert(enc_keys_cat(ks.take(i + 1)) =~= enc_keys_cat(ks.take(i)) + enc_key(ks[i]));
    }
}

/// Serializes the seen-set for its file.
pub fn encode_seen_set(seen: &SeenSet) -> (out: Vec<char>)
    ensures
        out@ == enc_seen(seen.keys.deep_view()),
{
    let ghost kdv = seen.keys.deep_view();
    let n = seen.keys.len();
    let mut out: Vec<char> = Vec::new();
    push_num(&mut out, n as u128);
    let mut i: usize = 0;
    while i < n
        invariant
            n == seen.keys@.len(),
            kdv == seen.keys.deep_view(),
            i <= n,
            out@ == enc_num(n as int) + enc_keys_cat(kdv.take(i as int)),
        decreases n - i,
    {
        let k = &seen.keys[i];
        push_source(&mut out, k.source);
        push_str(&mut out, k.url.as_str());
        proof {
            lemma_enc_cat_take_step_key(kdv, i as int);
            assert(out@ =~= enc_num(n as int) + enc_keys_cat(kdv.take(i + 1)));
        }
        i = i + 1;
    }
    proof {
        assert(kdv.take(n as int) =~= kdv);
        assert(out@ =~= enc_seen(kdv));
    }
    out
}

/// Deserializes the seen-set from its file's characters; a malformed file
/// yields nothing, and the caller falls back to an empty seen-set.
pub fn decode_seen_set(s: &Vec<char>) -> (r: Option<SeenSet>)
    ensures
        match r {
            Some(ss) => dec_seen(s@) == Some(ss.keys.deep_view()),
            None => dec_seen(s@) is None,
        },
{
    let rc = read_count(s, 0);
    if rc.is_none() {
        return None;
    }
    let (cnt, j0) = rc.unwrap();
    let mut acc: Vec<DedupKey> = Vec::new();
    let mut cur: usize = j0;
    let mut rem: usize = cnt;
    proof {
        match dec_keys_loop(s@, j0 as int, cnt as int) {
            Some((t, k)) => {
                assert(acc.deep_view() + t =~= t);
            },
            None => {},
        }
    }
    while rem > 0
        invariant
            j0 <= cur <= s@.len(),
            rem <= cnt,
            dec_count(s@, 0) == Some((cnt as int, j0 as int)),
            dec_keys_loop(s@, j0 as int, cnt as int) == match dec_keys_loop(
                s@,
                cur as int,
                rem as int,
            ) {
                Some((tail, k)) => Some((acc.deep_view() + tail, k)),
                None => None::<(Seq<(Source, Seq<char>)>, int)>,
            },
        decreases rem,
    {
        let ghost acc0 = acc.deep_view();
        let ghost cur0 = cur as int;
        let ghost rem0 = rem as int;
        let rs = read_source(s, cur);
        if rs.is_none() {
            return None;
        }
        let (src, i1) = rs.unwrap();
        let ru = read_str(s, i1);
        if ru.is_none() {
            return None;
        }
        let (url, i2) = ru.unwrap();
        let ghost uv = url@;
        let k = DedupKey { source: src, url };
        acc.push(k);
        cur = i2;
        rem = rem - 1;
        proof {
            assert(dec_key(s@, cur0) == Some(((src, uv), i2 as int)));
            assert(acc.deep_view() =~= acc0.push((src, uv)));
            match dec_keys_loop(s@, cur as int, rem as int) {
                Some((t, k2)) => {
                    assert(dec_keys_loop(s@, cur0, rem0) == Some((seq![(src, uv)] + t, k2)));
                    assert(acc0 + (seq![(src, uv)] + t) =~= acc0.push((src, uv)) + t);
                },
                None => {
                    assert(dec_keys_loop(s@, cur0, rem0) is None);
                },
            }
        }
    }
    proof {
        assert(dec_keys_loop(s@, cur as int, rem as int) == Some((
            Seq::<(Source, Seq<char>)>::empty(),
            cur as int,
        )));
        assert(acc.deep_view() + Seq::<(Source, Seq<char>)>::empty() =~= acc.deep_view());
    }
    if cur != s.len() {
        return None;
    }
    Some(SeenSet { keys: acc })
}

/// An optional number as it stands in the stream: `'0'`, or `'1'` and the
/// value.
pub open spec fn enc_opt_u64(o: Option<u64>) -> Seq<char> {
    match o {
        None => seq!['0'],
        Some(v) => seq!['1'] + enc_num(v as int),
    }
}

/// Reads an optional 64-bit number at `i`.
pub open spec fn dec_opt_u64(s: Seq<char>, i: int) -> Option<(Option<u64>, int)> {
    if i >= s.len() {
        None
    } else if s[i] == '0' {
        Some((None, i + 1))
    } else if s[i] == '1' {
        match dec_u64(s, i + 1) {
            None => None,
            Some((v, j)) => Some((Some(v), j)),
        }
    } else {
        None
    }
}

/// An optional 64-bit number written at `i` reads back to itself.
pub proof fn lemma_dec_enc_opt_u64(s: Seq<char>, i: int, o: Option<u64>)
    requires
        0 <= i,
        i + enc_opt_u64(o).len() <= s.len(),
        s.subrange(i, i + enc_opt_u64(o).len()) == enc_opt_u64(o),
    ensures
        dec_opt_u64(s, i) == Some((o, i + enc_opt_u64(o).len())),
{
    match o {
        None => {
            assert(s.subrange(i, i + 1)[0] == '0');
        },
        Some(v) => {
            lemma_split_at(s, i, seq!['1'], enc_num(v as int));
            assert(s.subrange(i, i + 1)[0] == '1');
            lemma_dec_enc_u64(s, i + 1, v);
        },
    }
}

/// Writes an optional 64-bit number onto the stream.
fn push_opt_u64(out: &mut Vec<char>, o: &Option<u64>)
    ensures
        final(out)@ == old(out)@ + enc_opt_u64(*o),
{
    match o {
        None => {
            out.push('0');
        },
        Some(v) => {
            out.push('1');
            push_num(out, *v as u128);
        },
    }
    proof {
        assert(out@ =~= old(out)@ + enc_opt_u64(*o));
    }
}

/// Reads an optional 64-bit number at `i`.
fn read_opt_u64(s: &Vec<char>, i: usize) -> (r: Option<(Option<u64>, usize)>)
    requires
        i <= s@.len(),
    ensures
        match r {
            Some((o, j)) => i < j <= s@.len() && dec_opt_u64(s@, i as int) == Some((
                o,
                j as int,
            )),
            None => dec_opt_u64(s@, i as int) is None,
        },
{
    if i >= s.len() {
        return None;
    }
    let c = s[i];
    if c == '0' {
        Some((None, i + 1))
    } else if c == '1' {
        let rn = read_u64(s, i + 1);
        if rn.is_none() {
            return None;
        }
        let (v, j) = rn.unwrap();
        Some((Some(v), j))
    } else {
        None
    }
}

/// An optional count as it stands in the stream.
pub open spec fn enc_opt_count(o: Option<int>) -> Seq<char> {
    match o {
        None => seq!['0'],
        Some(v) => seq!['1'] + enc_num(v),
    }
}

/// An optional count the stream can express.
pub open spec fn wf_opt_count(o: Option<int>) -> bool {
    match o {
        None => true,
        Some(v) => wf_count(v),
    }
}

/// Reads an optional count at `i`.
pub open spec fn dec_opt_count(s: Seq<char>, i: int) -> Option<(Option<int>, int)> {
    if i >= s.len() {
        None
    } else if s[i] == '0' {
        Some((None, i + 1))
    } else if s[i] == '1' {
        match dec_count(s, i + 1) {
            None => None,
            Some((v, j)) => Some((Some(v), j)),
        }
    } else {
        None
    }
}

/// An optional count written at `i` reads back to itself.
pub proof fn lemma_dec_enc_opt_count(s: Seq<char>, i: int, o: Option<int>)
    requires
        wf_opt_count(o),
        0 <= i,
        i + enc_opt_count(o).len() <= s.len(),
        s.subrange(i, i + enc_opt_count(o).len()) == enc_opt_count(o),
    ensures
        dec_opt_count(s, i) == Some((o, i + enc_opt_count(o).len())),
{
    match o {
        None => {
            assert(s.subrange(i, i + 1)[0] == '0');
        },
        Some(v) => {
            lemma_split_at(s, i, seq!['1'], enc_num(v));
            assert(s.subrange(i, i + 1)[0] == '1');
            lemma_dec_enc_count(s, i + 1, v);
        },
    }
}

/// Writes an optional count onto the stream.
fn push_opt_count(out: &mut Vec<char>, o: &Option<usize>)
    ensures
        final(out)@ == old(out)@ + enc_opt_count(
            match *o {
                Some(v) => Some(v as int),
                None => None,
            },
        ),
{
    match o {
        None => {
            out.push('0');
        },
        Some(v) => {
            out.push('1');
            push_num(out, *v as u128);
        },
    }
    proof {
        assert(out@ =~= old(out)@ + enc_opt_count(
            match *o {
                Some(v) => Some(v as int),
                None => None,
            },
        ));
    }
}

/// Reads an optional count at `i`.
fn read_opt_count(s: &Vec<char>, i: usize) -> (r: Option<(Option<usize>, usize)>)
    requires
        i <= s@.len(),
    ensures
        match r {
            Some((o, j)) => i < j <= s@.len() && dec_opt_count(s@, i as int) == Some((
                match o {
                    Some(v) => Some(v as int),
                    None => None,
                },
                j as int,
            )),
            None => dec_opt_count(s@, i as int) is None,
        },
{
    if i >= s.len() {
        return None;
    }
    let c = s[i];
    if c == '0' {
        Some((None, i + 1))
    } else if c == '1' {
        let rn = read_count(s, i + 1);
        if rn.is_none() {
            return None;
        }
        let (v, j) = rn.unwrap();
        Some((Some(v), j))
    } else {
        None
    }
}

/// An optional signed 64-bit number as it stands in the stream.
pub open spec fn enc_opt_i64(o: Option<i64>) -> Seq<char> {
    match o {
        None => seq!['0'],
        Some(v) => seq!['1'] + enc_signed(v as int),
    }
}

/// Reads an optional signed 64-bit number at `i`.
pub open spec fn dec_opt_i64(s: Seq<char>, i: int) -> Option<(Option<i64>, int)> {
    if i >= s.len() {
        None
    } else if s[i] == '0' {
        Some((None, i + 1))
    } else if s[i] == '1' {
        match dec_i64(s, i + 1) {
            None => None,
            Some((v, j)) => Some((Some(v), j)),
        }
    } else {
        None
    }
}

/// An optional signed 64-bit number written at `i` reads back to itself.
pub proof fn lemma_dec_enc_opt_i64(s: Seq<char>, i: int, o: Option<i64>)
    requires
        0 <= i,
        i + enc_opt_i64(o).len() <= s.len(),
        s.subrange(i, i + enc_opt_i64(o).len()) == enc_opt_i64(o),
    ensures
        dec_opt_i64(s, i) == Some((o, i + enc_opt_i64(o).len())),
{
    match o {
        None => {
            assert(s.subrange(i, i + 1)[0] == '0');
        },
        Some(v) => {
            lemma_split_at(s, i, seq!['1'], enc_signed(v as int));
            assert(s.subrange(i, i + 1)[0] == '1');
            lemma_dec_enc_i64(s, i + 1, v);
        },
    }
}

/// Writes an optional signed 64-bit number onto the stream.
fn push_opt_i64(out: &mut Vec<char>, o: &Option<i64>)
    ensures
        final(out)@ == old(out)@ + enc_opt_i64(*o),
{
    match o {
        None => {
            out.push('0');
        },
        Some(v) => {
            out.push('1');
            push_i64(out, *v);
        },
    }
    proof {
        assert(out@ =~= old(out)@ + enc_opt_i64(*o));
    }
}

/// Reads an optional signed 64-bit number at `i`.
fn read_opt_i64(s: &Vec<char>, i: usize) -> (r: Option<(Option<i64>, usize)>)
    requires
        i <= s@.len(),
    ensures
        match r {
            Some((o, j)) => i < j <= s@.len() && dec_opt_i64(s@, i as int) == Some((
                o,
                j as int,
            )),
            None => dec_opt_i64(s@, i as int) is None,
        },
{
    if i >= s.len() {
        return None;
    }
    let c = s[i];
    if c == '0' {
        Some((None, i + 1))
    } else if c == '1' {
        let rn = read_i64(s, i + 1);
        if rn.is_none() {
            return None;
        }
        let (v, j) = rn.unwrap();
        Some((Some(v), j))
    } else {
        None
    }
}

/// An optional signed 128-bit number as it stands in the stream.
pub open spec fn enc_opt_i128(o: Option<i128>) -> Seq<char> {
    match o {
        None => seq!['0'],
        Some(v) => seq!['1'] + enc_signed(v as int),
    }
}

/// Reads an optional signed 128-bit number at `i`.
pub open spec fn dec_opt_i128(s: Seq<char>, i: int) -> Option<(Option<i128>, int)> {
    if i >= s.len() {
        None
    } else if s[i] == '0' {
        Some((None, i + 1))
    } else if s[i] == '1' {
        match dec_i128(s, i + 1) {
            None => None,
            Some((v, j)) => Some((Some(v), j)),
        }
    } else {
        None
    }
}

/// An optional signed 128-bit number written at `i` reads back to itself.
pub proof fn lemma_dec_enc_opt_i128(s: Seq<char>, i: int, o: Option<i128>)
    requires
        0 <= i,
        i + enc_opt_i128(o).len() <= s.len(),
        s.subrange(i, i + enc_opt_i128(o).len()) == enc_opt_i128(o),
    ensures
        dec_opt_i128(s, i) == Some((o, i + enc_opt_i128(o).len())),
{
    match o {
        None => {
            assert(s.subrange(i, i + 1)[0] == '0');
        },
        Some(v) => {
            lemma_split_at(s, i, seq!['1'], enc_signed(v as int));
            assert(s.subrange(i, i + 1)[0] == '1');
            lemma_dec_enc_i128(s, i + 1, v);
        },
    }
}

/// Writes an optional signed 128-bit number onto the stream.
fn push_opt_i128(out: &mut Vec<char>, o: &Option<i128>)
    ensures
        final(out)@ == old(out)@ + enc_opt_i128(*o),
{
    match o {
        None => {
            out.push('0');
        },
        Some(v) => {
            out.push('1');
            push_i128(out, *v);
        },
    }
    proof {
        assert(out@ =~= old(out)@ + enc_opt_i128(*o));
    }
}

/// Reads an optional signed 128-bit number at `i`.
fn read_opt_i128(s: &Vec<char>, i: usize) -> (r: Option<(Option<i128>, usize)>)
    requires
        i <= s@.len(),
    ensures
        match r {
            Some((o, j)) => i < j <= s@.len() && dec_opt_i128(s@, i as int) == Some((
                o,
                j as int,
            )),
            None => dec_opt_i128(s@, i as int) is None,
        },
{
    if i >= s.len() {
        return None;
    }
    let c = s[i];
    if c == '0' {
        Some((None, i + 1))
    } else if c == '1' {
        let rn = read_i128(s, i + 1);
        if rn.is_none() {
            return None;
        }
        let (v, j) = rn.unwrap();
        Some((Some(v), j))
    } else {
        None
    }
}

/// The elements of a string list, one after the other.
pub open spec fn enc_strs_cat(xs: Seq<Seq<char>>) -> Seq<char>
    decreases xs.len(),
{
    if xs.len() == 0 {
        Seq::empty()
    } else {
        enc_str(xs[0]) + enc_strs_cat(xs.drop_first())
    }
}

/// A string list as it stands in the stream: its count, then its elements.
pub open spec fn enc_strs(xs: Seq<Seq<char>>) -> Seq<char> {
    enc_num(xs.len() as int) + enc_strs_cat(xs)
}

/// A string list the stream can express.
pub open spec fn wf_strs(xs: Seq<Seq<char>>) -> bool {
    xs.len() <= usize::MAX && forall|q: int|
        0 <= q < xs.len() ==> (#[trigger] xs[q]).len() <= u128::MAX
}

/// Reads `cnt` strings at `i`.
pub open spec fn dec_strs_loop(s: Seq<char>, i: int, cnt: int) -> Option<(Seq<Seq<char>>, int)>
    decreases cnt,
{
    if cnt <= 0 {
        Some((Seq::empty(), i))
    } else {
        match dec_str(s, i) {
            None => None,
            Some((x, j)) => match dec_strs_loop(s, j, cnt - 1) {
                None => None,
                Some((xs, k)) => Some((seq![x] + xs, k)),
            },
        }
    }
}

/// Reads a string list at `i`.
pub open spec fn dec_strs(s: Seq<char>, i: int) -> Option<(Seq<Seq<char>>, int)> {
    match dec_count(s, i) {
        None => None,
        Some((n, j)) => dec_strs_loop(s, j, n),
    }
}

/// Concatenated strings written at `i` read back to themselves.
proof fn lemma_dec_enc_strs_cat(s: Seq<char>, i: int, xs: Seq<Seq<char>>)
    requires
        forall|q: int| 0 <= q < xs.len() ==> (#[trigger] xs[q]).len() <= u128::MAX,
        0 <= i,
        i + enc_strs_cat(xs).len() <= s.len(),
        s.subrange(i, i + enc_strs_cat(xs).len()) == enc_strs_cat(xs),
    ensures
        dec_strs_loop(s, i, xs.len() as int) == Some((xs, i + enc_strs_cat(xs).len())),
    decreases xs.len(),
{
    if xs.len() > 0 {
        let e0 = enc_str(xs[0]);
        let rest = enc_strs_cat(xs.drop_first());
        lemma_split_at(s, i, e0, rest);
        lemma_dec_enc_str(s, i, xs[0]);
        assert forall|q: int|
            0 <= q < xs.drop_first().len() implies (#[trigger] xs.drop_first()[q]).len()
            <= u128::MAX by {
            assert(xs.drop_first()[q] == xs[q + 1]);
        }
        lemma_dec_enc_strs_cat(s, i + e0.len(), xs.drop_first());
        assert(seq![xs[0]] + xs.drop_first() =~= xs);
    }
}

/// A string list written at `i` reads back to itself.
pub proof fn lemma_dec_enc_strs(s: Seq<char>, i: int, xs: Seq<Seq<char>>)
    requires
        wf_strs(xs),
        0 <= i,
        i + enc_strs(xs).len() <= s.len(),
        s.subrange(i, i + enc_strs(xs).len()) == enc_strs(xs),
    ensures
        dec_strs(s, i) == Some((xs, i + enc_strs(xs).len())),
{
    let a = enc_num(xs.len() as int);
    lemma_split_at(s, i, a, enc_strs_cat(xs));
    lemma_dec_enc_count(s, i, xs.len() as int);
    lemma_dec_enc_strs_cat(s, i + a.len(), xs);
}

/// One more string extends the concatenation at its end.
proof fn lemma_enc_cat_take_step_str(xs: Seq<Seq<char>>, i: int)
    requires
        0 <= i < xs.len(),
    ensures
        enc_strs_cat(xs.take(i + 1)) == enc_strs_cat(xs.take(i)) + enc_str(xs[i]),
    decreases i,
{
    if i == 0 {
        assert(xs.take(1).drop_first() =~= xs.take(0));
        assert(enc_strs_cat(xs.take(1)) =~= enc_strs_cat(xs.take(0)) + enc_str(xs[0]));
    } else {
        assert(xs.take(i + 1).drop_first() =~= xs.drop_first().take(i));
        assert(xs.take(i).drop_first() =~= xs.drop_first().take(i - 1));
        lemma_enc_cat_take_step_str(xs.drop_first(), i - 1);
        assert(xs.drop_first()[i - 1] == xs[i]);
        assert(enc_strs_cat(xs.take(i + 1)) =~= enc_strs_cat(xs.take(i)) + enc_str(xs[i]));
    }
}

/// Writes a string list, count first, onto the stream.
fn push_strs(out: &mut Vec<char>, xs: &Vec<String>)
    ensures
        final(out)@ == old(out)@ + enc_strs(xs.deep_view()),
{
    let n = xs.len();
    push_num(out, n as u128);
    let ghost xdv = xs.deep_view();
    let mut i: usize = 0;
    while i < n
        invariant
            n == xs@.len(),
            xdv == xs.deep_view(),
            i <= n,
            out@ == old(out)@ + enc_num(n as int) + enc_strs_cat(xdv.take(i as int)),
        decreases n - i,
    {
        push_str(out, xs[i].as_str());
        proof {
            lemma_enc_cat_take_step_str(xdv, i as int);
            assert(out@ =~= old(out)@ + enc_num(n as int) + enc_strs_cat(xdv.take(i + 1)));
        }
        i = i + 1;
    }
    proof {
        assert(xdv.take(n as int) =~= xdv);
        assert(out@ =~= old(out)@ + enc_strs(xdv));
    }
}

/// Reads a string list at `i`.
fn read_strs(s: &Vec<char>, i: usize) -> (r: Option<(Vec<String>, usize)>)
    requires
        i <= s@.len(),
    ensures
        match r {
            Some((xs, j)) => i < j <= s@.len() && dec_strs(s@, i as int) == Some((
                xs.deep_view(),
                j as int,
            )),
            None => dec_strs(s@, i as int) is None,
        },
{
    let rc = read_count(s, i);
    if rc.is_none() {
        return None;
    }
    let (cnt, j0) = rc.unwrap();
    let mut acc: Vec<String> = Vec::new();
    let mut cur: usize = j0;
    let mut rem: usize = cnt;
    proof {
        match dec_strs_loop(s@, j0 as int, cnt as int) {
            Some((t, k)) => {
                assert(acc.deep_view() + t =~= t);
            },
            None => {},
        }
    }
    while rem > 0
        invariant
            j0 <= cur <= s@.len(),
            rem <= cnt,
            dec_count(s@, i as int) == Some((cnt as int, j0 as int)),
            dec_strs_loop(s@, j0 as int, cnt as int) == match dec_strs_loop(
                s@,
                cur as int,
                rem as int,
            ) {
                Some((tail, k)) => Some((acc.deep_view() + tail, k)),
                None => None::<(Seq<Seq<char>>, int)>,
            },
        decreases rem,
    {
        let ghost acc0 = acc.deep_view();
        let ghost cur0 = cur as int;
        let ghost rem0 = rem as int;
        let re = read_str(s, cur);
        if re.is_none() {
            return None;
        }
        let (x, j) = re.unwrap();
        let ghost xv = x@;
        acc.push(x);
        cur = j;
        rem = rem - 1;
        proof {
            assert(acc.deep_view() =~= acc0.push(xv));
            match dec_strs_loop(s@, cur as int, rem as int) {
                Some((t, k)) => {
                    assert(dec_strs_loop(s@, cur0, rem0) == Some((seq![xv] + t, k)));
                    assert(acc0 + (seq![xv] + t) =~= acc0.push(xv) + t);
                },
                None => {
                    assert(dec_strs_loop(s@, cur0, rem0) is None);
                },
            }
        }
    }
    proof {
        assert(dec_strs_loop(s@, cur as int, rem as int) == Some((
            Seq::<Seq<char>>::empty(),
            cur as int,
        )));
        assert(acc.deep_view() + Seq::<Seq<char>>::empty() =~= acc.deep_view());
    }
    Some((acc, cur))
}

/// An opportunity as it stands in the stream: the buy identity, the
/// cluster statistics, the profit figures, and the sample URLs.
#[verifier::opaque]
pub open spec fn enc_opp(o: OpportunityModel) -> Seq<char> {
    enc_str(o.buy_name) + enc_source(o.buy_source) + enc_num(o.buy_price_cents as int) + enc_str(
        o.buy_url,
    ) + enc_num(o.sold_mean_cents as int) + enc_num(o.sold_count) + enc_num(
        o.sold_min_cents as int,
    ) + enc_num(o.sold_max_cents as int) + enc_num(o.profit_cents as int) + enc_num(
        o.margin_bp as int,
    ) + enc_strs(o.sample_urls)
}

/// An opportunity the stream can express.
pub open spec fn wf_opp(o: OpportunityModel) -> bool {
    o.buy_name.len() <= u128::MAX && o.buy_url.len() <= u128::MAX && wf_count(o.sold_count)
        && wf_strs(o.sample_urls)
}

/// Reads an opportunity at `i`.
#[verifier::opaque]
pub open spec fn dec_opp(s: Seq<char>, i: int) -> Option<(OpportunityModel, int)> {
    match dec_str(s, i) {
        None => None,
        Some((buy_name, i1)) => match dec_source(s, i1) {
            None => None,
            Some((buy_source, i2)) => match dec_u64(s, i2) {
                None => None,
                Some((buy_price_cents, i3)) => match dec_str(s, i3) {
                    None => None,
                    Some((buy_url, i4)) => match dec_u64(s, i4) {
                        None => None,
                        Some((sold_mean_cents, i5)) => match dec_count(s, i5) {
                            None => None,
                            Some((sold_count, i6)) => match dec_u64(s, i6) {
                                None => None,
                                Some((sold_min_cents, i7)) => match dec_u64(s, i7) {
                                    None => None,
                                    Some((sold_max_cents, i8)) => match dec_u64(s, i8) {
                                        None => None,
                                        Some((profit_cents, i9)) => match dec_u64(s, i9) {
                                            None => None,
                                            Some((margin_bp, i10)) => match dec_strs(s, i10) {
                                                None => None,
                                                Some((sample_urls, i11)) => Some(
                                                    (
                                                        OpportunityModel {
                                                            buy_name,
                                                            buy_source,
                                                            buy_price_cents,
                                                            buy_url,
                                                            sold_mean_cents,
                                                            sold_count,
                                                            sold_min_cents,
                                                            sold_max_cents,
                                                            profit_cents,
                                                            margin_bp,
                                                            sample_urls,
                                                        },
                                                        i11,
                                                    ),
                                                ),
                                            },
                                        },
                                    },
                                },
                            },
                        },
                    },
                },
            },
        },
    }
}

/// An opportunity written at `i` reads back to itself.
#[verifier::rlimit(60)]
pub proof fn lemma_dec_enc_opp(s: Seq<char>, i: int, o: OpportunityModel)
    requires
        wf_opp(o),
        0 <= i,
        i + enc_opp(o).len() <= s.len(),
        s.subrange(i, i + enc_opp(o).len()) == enc_opp(o),
    ensures
        dec_opp(s, i) == Some((o, i + enc_opp(o).len())),
{
    reveal(enc_opp);
    reveal(dec_opp);
    let e1 = enc_str(o.buy_name);
    let e2 = enc_source(o.buy_source);
    let e3 = enc_num(o.buy_price_cents as int);
    let e4 = enc_str(o.buy_url);
    let e5 = enc_num(o.sold_mean_cents as int);
    let e6 = enc_num(o.sold_count);
    let e7 = enc_num(o.sold_min_cents as int);
    let e8 = enc_num(o.sold_max_cents as int);
    let e9 = enc_num(o.profit_cents as int);
    let e10 = enc_num(o.margin_bp as int);
    let e11 = enc_strs(o.sample_urls);
    let r2 = e2 + (e3 + (e4 + (e5 + (e6 + (e7 + (e8 + (e9 + (e10 + e11))))))));
    assert(enc_opp(o) =~= e1 + r2);
    lemma_split_at(s, i, e1, r2);
    lemma_dec_enc_str(s, i, o.buy_name);
    let i1 = i + e1.len();
    let r3 = e3 + (e4 + (e5 + (e6 + (e7 + (e8 + (e9 + (e10 + e11)))))));
    lemma_split_at(s, i1, e2, r3);
    lemma_dec_enc_source(s, i1, o.buy_source);
    let i2 = i1 + e2.len();
    let r4 = e4 + (e5 + (e6 + (e7 + (e8 + (e9 + (e10 + e11))))));
    lemma_split_at(s, i2, e3, r4);
    lemma_dec_enc_u64(s, i2, o.buy_price_cents);
    let i3 = i2 + e3.len();
    let r5 = e5 + (e6 + (e7 + (e8 + (e9 + (e10 + e11)))));
    lemma_split_at(s, i3, e4, r5);
    lemma_dec_enc_str(s, i3, o.buy_url);
    let i4 = i3 + e4.len();
    let r6 = e6 + (e7 + (e8 + (e9 + (e10 + e11))));
    lemma_split_at(s, i4, e5, r6);
    lemma_dec_enc_u64(s, i4, o.sold_mean_cents);
    let i5 = i4 + e5.len();
    let r7 = e7 + (e8 + (e9 + (e10 + e11)));
    lemma_split_at(s, i5, e6, r7);
    lemma_dec_enc_count(s, i5, o.sold_count);
    let i6 = i5 + e6.len();
    let r8 = e8 + (e9 + (e10 + e11));
    lemma_split_at(s, i6, e7, r8);
    lemma_dec_enc_u64(s, i6, o.sold_min_cents);
    let i7 = i6 + e7.len();
    let r9 = e9 + (e10 + e11);
    lemma_split_at(s, i7, e8, r9);
    lemma_dec_enc_u64(s, i7, o.sold_max_cents);
    let i8 = i7 + e8.len();
    let r10 = e10 + e11;
    lemma_split_at(s, i8, e9, r10);
    lemma_dec_enc_u64(s, i8, o.profit_cents);
    let i9 = i8 + e9.len();
    lemma_split_at(s, i9, e10, e11);
    lemma_dec_enc_u64(s, i9, o.margin_bp);
    let i10 = i9 + e10.len();
    lemma_dec_enc_strs(s, i10, o.sample_urls);
}

/// Writes an opportunity onto the stream.
fn push_opp(out: &mut Vec<char>, o: &ArbitrageOpportunity)
    ensures
        final(out)@ == old(out)@ + enc_opp(o@),
{
    push_str(out, o.buy_name.as_str());
    push_source(out, o.buy_source);
    push_num(out, o.buy_price_cents as u128);
    push_str(out, o.buy_url.as_str());
    push_num(out, o.sold_mean_cents as u128);
    push_num(out, o.sold_count as u128);
    push_num(out, o.sold_min_cents as u128);
    push_num(out, o.sold_max_cents as u128);
    push_num(out, o.profit_cents as u128);
    push_num(out, o.margin_bp as u128);
    push_strs(out, &o.sample_urls);
    proof {
        reveal(enc_opp);
        assert(out@ =~= old(out)@ + enc_opp(o@));
    }
}

/// Reads an opportunity at `i`.
fn read_opp(s: &Vec<char>, i: usize) -> (r: Option<(ArbitrageOpportunity, usize)>)
    requires
        i <= s@.len(),
    ensures
        match r {
            Some((o, j)) => i < j <= s@.len() && dec_opp(s@, i as int) == Some((o@, j as int)),
            None => dec_opp(s@, i as int) is None,
        },
{
    proof {
        reveal(dec_opp);
    }
    let r1 = read_str(s, i);
    if r1.is_none() {
        return None;
    }
    let (buy_name, i1) = r1.unwrap();
    let r2 = read_source(s, i1);
    if r2.is_none() {
        return None;
    }
    let (buy_source, i2) = r2.unwrap();
    let r3 = read_u64(s, i2);
    if r3.is_none() {
        return None;
    }
    let (buy_price_cents, i3) = r3.unwrap();
    let r4 = read_str(s, i3);
    if r4.is_none() {
        return None;
    }
    let (buy_url, i4) = r4.unwrap();
    let r5 = read_u64(s, i4);
    if r5.is_none() {
        return None;
    }
    let (sold_mean_cents, i5) = r5.unwrap();
    let r6 = read_count(s, i5);
    if r6.is_none() {
        return None;
    }
    let (sold_count, i6) = r6.unwrap();
    let r7 = read_u64(s, i6);
    if r7.is_none() {
        return None;
    }
    let (sold_min_cents, i7) = r7.unwrap();
    let r8 = read_u64(s, i7);
    if r8.is_none() {
        return None;
    }
    let (sold_max_cents, i8) = r8.unwrap();
    let r9 = read_u64(s, i8);
    if r9.is_none() {
        return None;
    }
    let (profit_cents, i9) = r9.unwrap();
    let r10 = read_u64(s, i9);
    if r10.is_none() {
        return None;
    }
    let (margin_bp, i10) = r10.unwrap();
    let r11 = read_strs(s, i10);
    if r11.is_none() {
        return None;
    }
    let (sample_urls, i11) = r11.unwrap();
    Some(
        (
            ArbitrageOpportunity {
                buy_name,
                buy_source,
                buy_price_cents,
                buy_url,
                sold_mean_cents,
                sold_count,
                sold_min_cents,
                sold_max_cents,
                profit_cents,
                margin_bp,
                sample_urls,
            },
            i11,
        ),
    )
}

/// The elements of an opportunity list, one after the other.
pub open spec fn enc_opps_cat(xs: Seq<OpportunityModel>) -> Seq<char>
    decreases xs.len(),
{
    if xs.len() == 0 {
        Seq::empty()
    } else {
        enc_opp(xs[0]) + enc_opps_cat(xs.drop_first())
    }
}

/// An opportunity list as it stands in the stream.
pub open spec fn enc_opps(xs: Seq<OpportunityModel>) -> Seq<char> {
    enc_num(xs.len() as int) + enc_opps_cat(xs)
}

/// An opportunity list the stream can express.
pub open spec fn wf_opps(xs: Seq<OpportunityModel>) -> bool {
    xs.len() <= usize::MAX && forall|q: int| 0 <= q < xs.len() ==> wf_opp(#[trigger] xs[q])
}

/// Reads `cnt` opportunities at `i`.
pub open spec fn dec_opps_loop(s: Seq<char>, i: int, cnt: int) -> Option<
    (Seq<OpportunityModel>, int),
>
    decreases cnt,
{
    if cnt <= 0 {
        Some((Seq::empty(), i))
    } else {
        match dec_opp(s, i) {
            None => None,
            Some((x, j)) => match dec_opps_loop(s, j, cnt - 1) {
                None => None,
                Some((xs, k)) => Some((seq![x] + xs, k)),
            },
        }
    }
}

/// Reads an opportunity list at `i`.
pub open spec fn dec_opps(s: Seq<char>, i: int) -> Option<(Seq<OpportunityModel>, int)> {
    match dec_count(s, i) {
        None => None,
        Some((n, j)) => dec_opps_loop(s, j, n),
    }
}

/// Concatenated opportunities written at `i` read back to themselves.
proof fn lemma_dec_enc_opps_cat(s: Seq<char>, i: int, xs: Seq<OpportunityModel>)
    requires
        forall|q: int| 0 <= q < xs.len() ==> wf_opp(#[trigger] xs[q]),
        0 <= i,
        i + enc_opps_cat(xs).len() <= s.len(),
        s.subrange(i, i + enc_opps_cat(xs).len()) == enc_opps_cat(xs),
    ensures
        dec_opps_loop(s, i, xs.len() as int) == Some((xs, i + enc_opps_cat(xs).len())),
    decreases xs.len(),
{
    if xs.len() > 0 {
        let e0 = enc_opp(xs[0]);
        let rest = enc_opps_cat(xs.drop_first());
        lemma_split_at(s, i, e0, rest);
        lemma_dec_enc_opp(s, i, xs[0]);
        assert forall|q: int| 0 <= q < xs.drop_first().len() implies wf_opp(
            #[trigger] xs.drop_first()[q],
        ) by {
            assert(xs.drop_first()[q] == xs[q + 1]);
        }
        lemma_dec_enc_opps_cat(s, i + e0.len(), xs.drop_first());
        assert(seq![xs[0]] + xs.drop_first() =~= xs);
    }
}

/// An opportunity list written at `i` reads back to itself.
pub proof fn lemma_dec_enc_opps(s: Seq<char>, i: int, xs: Seq<OpportunityModel>)
    requires
        wf_opps(xs),
        0 <= i,
        i + enc_opps(xs).len() <= s.len(),
        s.subrange(i, i + enc_opps(xs).len()) == enc_opps(xs),
    ensures
        dec_opps(s, i) == Some((xs, i + enc_opps(xs).len())),
{
    let a = enc_num(xs.len() as int);
    lemma_split_at(s, i, a, enc_opps_cat(xs));
    lemma_dec_enc_count(s, i, xs.len() as int);
    lemma_dec_enc_opps_cat(s, i + a.len(), xs);
}

/// One more opportunity extends the concatenation at its end.
proof fn lemma_enc_cat_take_step_opp(xs: Seq<OpportunityModel>, i: int)
    requires
        0 <= i < xs.len(),
    ensures
        enc_opps_cat(xs.take(i + 1)) == enc_opps_cat(xs.take(i)) + enc_opp(xs[i]),
    decreases i,
{
    if i == 0 {
        assert(xs.take(1).drop_first() =~= xs.take(0));
        assert(enc_opps_cat(xs.take(1)) =~= enc_opps_cat(xs.take(0)) + enc_opp(xs[0]));
    } else {
        assert(xs.take(i + 1).drop_first() =~= xs.drop_first().take(i));
        assert(xs.take(i).drop_first() =~= xs.drop_first().take(i - 1));
        lemma_enc_cat_take_step_opp(xs.drop_first(), i - 1);
        assert(xs.drop_first()[i - 1] == xs[i]);
        assert(enc_opps_cat(xs.take(i + 1)) =~= enc_opps_cat(xs.take(i)) + enc_opp(xs[i]));
    }
}

/// Writes an opportunity list, count first, onto the stream.
fn push_opps(out: &mut Vec<char>, xs: &Vec<ArbitrageOpportunity>)
    ensures
        final(out)@ == old(out)@ + enc_opps(xs.deep_view()),
{
    let n = xs.len();
    push_num(out, n as u128);
    let ghost xdv = xs.deep_view();
    let mut i: usize = 0;
    while i < n
        invariant
            n == xs@.len(),
            xdv == xs.deep_view(),
            i <= n,
            out@ == old(out)@ + enc_num(n as int) + enc_opps_cat(xdv.take(i as int)),
        decreases n - i,
    {
        push_opp(out, &xs[i]);
        proof {
            lemma_enc_cat_take_step_opp(xdv, i as int);
            assert(out@ =~= old(out)@ + enc_num(n as int) + enc_opps_cat(xdv.take(i + 1)));
        }
        i = i + 1;
    }
    proof {
        assert(xdv.take(n as int) =~= xdv);
        assert(out@ =~= old(out)@ + enc_opps(xdv));
    }
}

/// Reads an opportunity list at `i`.
fn read_opps(s: &Vec<char>, i: usize) -> (r: Option<(Vec<ArbitrageOpportunity>, usize)>)
    requires
        i <= s@.len(),
    ensures
        match r {
            Some((xs, j)) => i < j <= s@.len() && dec_opps(s@, i as int) == Some((
                xs.deep_view(),
                j as int,
            )),
            None => dec_opps(s@, i as int) is None,
        },
{
    let rc = read_count(s, i);
    if rc.is_none() {
        return None;
    }
    let (cnt, j0) = rc.unwrap();
    let mut acc: Vec<ArbitrageOpportunity> = Vec::new();
    let mut cur: usize = j0;
    let mut rem: usize = cnt;
    proof {
        match dec_opps_loop(s@, j0 as int, cnt as int) {
            Some((t, k)) => {
                assert(acc.deep_view() + t =~= t);
            },
            None => {},
        }
    }
    while rem > 0
        invariant
            j0 <= cur <= s@.len(),
            rem <= cnt,
            dec_count(s@, i as int) == Some((cnt as int, j0 as int)),
            dec_opps_loop(s@, j0 as int, cnt as int) == match dec_opps_loop(
                s@,
                cur as int,
                rem as int,
            ) {
                Some((tail, k)) => Some((acc.deep_view() + tail, k)),
                None => None::<(Seq<OpportunityModel>, int)>,
            },
        decreases rem,
    {
        let ghost acc0 = acc.deep_view();
        let ghost cur0 = cur as int;
        let ghost rem0 = rem as int;
        let re = read_opp(s, cur);
        if re.is_none() {
            return None;
        }
        let (x, j) = re.unwrap();
        let ghost xv = x@;
        acc.push(x);
        cur = j;
        rem = rem - 1;
        proof {
            assert(acc.deep_view() =~= acc0.push(xv));
            match dec_opps_loop(s@, cur as int, rem as int) {
                Some((t, k)) => {
                    assert(dec_opps_loop(s@, cur0, rem0) == Some((seq![xv] + t, k)));
                    assert(acc0 + (seq![xv] + t) =~= acc0.push(xv) + t);
                },
                None => {
                    assert(dec_opps_loop(s@, cur0, rem0) is None);
                },
            }
        }
    }
    proof {
        assert(dec_opps_loop(s@, cur as int, rem as int) == Some((
            Seq::<OpportunityModel>::empty(),
            cur as int,
        )));
        assert(acc.deep_view() + Seq::<OpportunityModel>::empty() =~= acc.deep_view());
    }
    Some((acc, cur))
}

/// An optional opportunity as it stands in the stream.
pub open spec fn enc_opt_opp(o: Option<OpportunityModel>) -> Seq<char> {
    match o {
        None => seq!['0'],
        Some(v) => seq!['1'] + enc_opp(v),
    }
}

/// An optional opportunity the stream can express.
pub open spec fn wf_opt_opp(o: Option<OpportunityModel>) -> bool {
    match o {
        None => true,
        Some(v) => wf_opp(v),
    }
}

/// Reads an optional opportunity at `i`.
pub open spec fn dec_opt_opp(s: Seq<char>, i: int) -> Option<(Option<OpportunityModel>, int)> {
    if i >= s.len() {
        None
    } else if s[i] == '0' {
        Some((None, i + 1))
    } else if s[i] == '1' {
        match dec_opp(s, i + 1) {
            None => None,
            Some((v, j)) => Some((Some(v), j)),
        }
    } else {
        None
    }
}

/// An optional opportunity written at `i` reads back to itself.
pub proof fn lemma_dec_enc_opt_opp(s: Seq<char>, i: int, o: Option<OpportunityModel>)
    requires
        wf_opt_opp(o),
        0 <= i,
        i + enc_opt_opp(o).len() <= s.len(),
        s.subrange(i, i + enc_opt_opp(o).len()) == enc_opt_opp(o),
    ensures
        dec_opt_opp(s, i) == Some((o, i + enc_opt_opp(o).len())),
{
    match o {
        None => {
            assert(s.subrange(i, i + 1)[0] == '0');
        },
        Some(v) => {
            lemma_split_at(s, i, seq!['1'], enc_opp(v));
            assert(s.subrange(i, i + 1)[0] == '1');
            lemma_dec_enc_opp(s, i + 1, v);
        },
    }
}

/// Writes an optional opportunity onto the stream.
fn push_opt_opp(out: &mut Vec<char>, o: &Option<ArbitrageOpportunity>)
    ensures
        final(out)@ == old(out)@ + enc_opt_opp(
            match *o {
                Some(ref v) => Some(v@),
                None => None,
            },
        ),
{
    match o {
        None => {
            out.push('0');
        },
        Some(v) => {
            out.push('1');
            push_opp(out, v);
        },
    }
    proof {
        assert(out@ =~= old(out)@ + enc_opt_opp(
            match *o {
                Some(ref v) => Some(v@),
                None => None,
            },
        ));
    }
}

/// Reads an optional opportunity at `i`.
fn read_opt_opp(s: &Vec<char>, i: usize) -> (r: Option<(Option<ArbitrageOpportunity>, usize)>)
    requires
        i <= s@.len(),
    ensures
        match r {
            Some((o, j)) => i < j <= s@.len() && dec_opt_opp(s@, i as int) == Some((
                match o {
                    Some(ref v) => Some(v@),
                    None => None,
                },
                j as int,
            )),
            None => dec_opt_opp(s@, i as int) is None,
        },
{
    if i >= s.len() {
        return None;
    }
    let c = s[i];
    if c == '0' {
        Some((None, i + 1))
    } else if c == '1' {
        let rn = read_opp(s, i + 1);
        if rn.is_none() {
            return None;
        }
        let (v, j) = rn.unwrap();
        Some((Some(v), j))
    } else {
        None
    }
}

/// A comparison record as it stands in the stream.
#[verifier::opaque]
pub open spec fn enc_cmp(c: ComparisonModel) -> Seq<char> {
    enc_str(c.name) + enc_str(c.price) + enc_opt_u64(c.price_cents) + enc_str(c.url) + enc_source(
        c.source,
    ) + enc_opt_u64(c.sold_mean_cents) + enc_opt_count(c.sold_count) + enc_opt_u64(
        c.sold_min_cents,
    ) + enc_opt_u64(c.sold_max_cents) + enc_opt_i64(c.profit_cents) + enc_opt_i128(c.margin_bp)
}

/// A comparison record the stream can express.
pub open spec fn wf_cmp(c: ComparisonModel) -> bool {
    c.name.len() <= u128::MAX && c.price.len() <= u128::MAX && c.url.len() <= u128::MAX
        && wf_opt_count(c.sold_count)
}

/// Reads a comparison record at `i`.
#[verifier::opaque]
pub open spec fn dec_cmp(s: Seq<char>, i: int) -> Option<(ComparisonModel, int)> {
    match dec_str(s, i) {
        None => None,
        Some((name, i1)) => match dec_str(s, i1) {
            None => None,
            Some((price, i2)) => match dec_opt_u64(s, i2) {
                None => None,
                Some((price_cents, i3)) => match dec_str(s, i3) {
                    None => None,
                    Some((url, i4)) => match dec_source(s, i4) {
                        None => None,
                        Some((source, i5)) => match dec_opt_u64(s, i5) {
                            None => None,
                            Some((sold_mean_cents, i6)) => match dec_opt_count(s, i6) {
                                None => None,
                                Some((sold_count, i7)) => match dec_opt_u64(s, i7) {
                                    None => None,
                                    Some((sold_min_cents, i8)) => match dec_opt_u64(s, i8) {
                                        None => None,
                                        Some((sold_max_cents, i9)) => match dec_opt_i64(s, i9) {
                                            None => None,
                                            Some((profit_cents, i10)) => match dec_opt_i128(
                                                s,
                                                i10,
                                            ) {
                                                None => None,
                                                Some((margin_bp, i11)) => Some(
                                                    (
                                                        ComparisonModel {
                                                            name,
                                                            price,
                                                            price_cents,
                                                            url,
                                                            source,
                                                            sold_mean_cents,
                                                            sold_count,
                                                            sold_min_cents,
                                                            sold_max_cents,
                                                            profit_cents,
                                                            margin_bp,
                                                        },
                                                        i11,
                                                    ),
                                                ),
                                            },
                                        },
                                    },
                                },
                            },
                        },
                    },
                },
            },
        },
    }
}

/// A comparison record written at `i` reads back to itself.
#[verifier::rlimit(100)]
#[verifier::spinoff_prover]
pub proof fn lemma_dec_enc_cmp(s: Seq<char>, i: int, c: ComparisonModel)
    requires
        wf_cmp(c),
        0 <= i,
        i + enc_cmp(c).len() <= s.len(),
        s.subrange(i, i + enc_cmp(c).len()) == enc_cmp(c),
    ensures
        dec_cmp(s, i) == Some((c, i + enc_cmp(c).len())),
{
    reveal(enc_cmp);
    reveal(dec_cmp);
    let e1 = enc_str(c.name);
    let e2 = enc_str(c.price);
    let e3 = enc_opt_u64(c.price_cents);
    let e4 = enc_str(c.url);
    let e5 = enc_source(c.source);
    let e6 = enc_opt_u64(c.sold_mean_cents);
    let e7 = enc_opt_count(c.sold_count);
    let e8 = enc_opt_u64(c.sold_min_cents);
    let e9 = enc_opt_u64(c.sold_max_cents);
    let e10 = enc_opt_i64(c.profit_cents);
    let e11 = enc_opt_i128(c.margin_bp);
    let r2 = e2 + (e3 + (e4 + (e5 + (e6 + (e7 + (e8 + (e9 + (e10 + e11))))))));
    assert(enc_cmp(c) =~= e1 + r2);
    lemma_split_at(s, i, e1, r2);
    lemma_dec_enc_str(s, i, c.name);
    let i1 = i + e1.len();
    let r3 = e3 + (e4 + (e5 + (e6 + (e7 + (e8 + (e9 + (e10 + e11)))))));
    lemma_split_at(s, i1, e2, r3);
    lemma_dec_enc_str(s, i1, c.price);
    let i2 = i1 + e2.len();
    let r4 = e4 + (e5 + (e6 + (e7 + (e8 + (e9 + (e10 + e11))))));
    lemma_split_at(s, i2, e3, r4);
    lemma_dec_enc_opt_u64(s, i2, c.price_cents);
    let i3 = i2 + e3.len();
    let r5 = e5 + (e6 + (e7 + (e8 + (e9 + (e10 + e11)))));
    lemma_split_at(s, i3, e4, r5);
    lemma_dec_enc_str(s, i3, c.url);
    let i4 = i3 + e4.len();
    let r6 = e6 + (e7 + (e8 + (e9 + (e10 + e11))));
    lemma_split_at(s, i4, e5, r6);
    lemma_dec_enc_source(s, i4, c.source);
    let i5 = i4 + e5.len();
    let r7 = e7 + (e8 + (e9 + (e10 + e11)));
    lemma_split_at(s, i5, e6, r7);
    lemma_dec_enc_opt_u64(s, i5, c.sold_mean_cents);
    let i6 = i5 + e6.len();
    let r8 = e8 + (e9 + (e10 + e11));
    lemma_split_at(s, i6, e7, r8);
    lemma_dec_enc_opt_count(s, i6, c.sold_count);
    let i7 = i6 + e7.len();
    let r9 = e9 + (e10 + e11);
    lemma_split_at(s, i7, e8, r9);
    lemma_dec_enc_opt_u64(s, i7, c.sold_min_cents);
    let i8 = i7 + e8.len();
    let r10 = e10 + e11;
    lemma_split_at(s, i8, e9, r10);
    lemma_dec_enc_opt_u64(s, i8, c.sold_max_cents);
    let i9 = i8 + e9.len();
    lemma_split_at(s, i9, e10, e11);
    lemma_dec_enc_opt_i64(s, i9, c.profit_cents);
    let i10 = i9 + e10.len();
    lemma_dec_enc_opt_i128(s, i10, c.margin_bp);
}

/// Writes a comparison record onto the stream.
#[verifier::rlimit(100)]
#[verifier::spinoff_prover]
fn push_cmp(out: &mut Vec<char>, c: &ProductWithComparison)
    ensures
        final(out)@ == old(out)@ + enc_cmp(c@),
{
    push_str(out, c.name.as_str());
    push_str(out, c.price.as_str());
    push_opt_u64(out, &c.price_cents);
    push_str(out, c.url.as_str());
    push_source(out, c.source);
    push_opt_u64(out, &c.sold_mean_cents);
    push_opt_count(out, &c.sold_count);
    push_opt_u64(out, &c.sold_min_cents);
    push_opt_u64(out, &c.sold_max_cents);
    push_opt_i64(out, &c.profit_cents);
    push_opt_i128(out, &c.margin_bp);
    proof {
        reveal(enc_cmp);
        assert(out@ =~= old(out)@ + enc_cmp(c@));
    }
}

/// Reads a comparison record at `i`.
fn read_cmp(s: &Vec<char>, i: usize) -> (r: Option<(ProductWithComparison, usize)>)
    requires
        i <= s@.len(),
    ensures
        match r {
            Some((c, j)) => i < j <= s@.len() && dec_cmp(s@, i as int) == Some((c@, j as int)),
            None => dec_cmp(s@, i as int) is None,
        },
{
    proof {
        reveal(dec_cmp);
    }
    let r1 = read_str(s, i);
    if r1.is_none() {
        return None;
    }
    let (name, i1) = r1.unwrap();
    let r2 = read_str(s, i1);
    if r2.is_none() {
        return None;
    }
    let (price, i2) = r2.unwrap();
    let r3 = read_opt_u64(s, i2);
    if r3.is_none() {
        return None;
    }
    let (price_cents, i3) = r3.unwrap();
    let r4 = read_str(s, i3);
    if r4.is_none() {
        return None;
    }
    let (url, i4) = r4.unwrap();
    let r5 = read_source(s, i4);
    if r5.is_none() {
        return None;
    }
    let (source, i5) = r5.unwrap();
    let r6 = read_opt_u64(s, i5);
    if r6.is_none() {
        return None;
    }
    let (sold_mean_cents, i6) = r6.unwrap();
    let r7 = read_opt_count(s, i6);
    if r7.is_none() {
        return None;
    }
    let (sold_count, i7) = r7.unwrap();
    let r8 = read_opt_u64(s, i7);
    if r8.is_none() {
        return None;
    }
    let (sold_min_cents, i8) = r8.unwrap();
    let r9 = read_opt_u64(s, i8);
    if r9.is_none() {
        return None;
    }
    let (sold_max_cents, i9) = r9.unwrap();
    let r10 = read_opt_i64(s, i9);
    if r10.is_none() {
        return None;
    }
    let (profit_cents, i10) = r10.unwrap();
    let r11 = read_opt_i128(s, i10);
    if r11.is_none() {
        return None;
    }
    let (margin_bp, i11) = r11.unwrap();
    Some(
        (
            ProductWithComparison {
                name,
                price,
                price_cents,
                url,
                source,
                sold_mean_cents,
                sold_count,
                sold_min_cents,
                sold_max_cents,
                profit_cents,
                margin_bp,
            },
            i11,
        ),
    )
}

/// The elements of a comparison list, one after the other.
pub open spec fn enc_cmps_cat(xs: Seq<ComparisonModel>) -> Seq<char>
    decreases xs.len(),
{
    if xs.len() == 0 {
        Seq::empty()
    } else {
        enc_cmp(xs[0]) + enc_cmps_cat(xs.drop_first())
    }
}

/// A comparison list as it stands in the stream.
pub open spec fn enc_cmps(xs: Seq<ComparisonModel>) -> Seq<char> {
    enc_num(xs.len() as int) + enc_cmps_cat(xs)
}

/// A comparison list the stream can express.
pub open spec fn wf_cmps(xs: Seq<ComparisonModel>) -> bool {
    xs.len() <= usize::MAX && forall|q: int| 0 <= q < xs.len() ==> wf_cmp(#[trigger] xs[q])
}

/// Reads `cnt` comparison records at `i`.
pub open spec fn dec_cmps_loop(s: Seq<char>, i: int, cnt: int) -> Option<
    (Seq<ComparisonModel>, int),
>
    decreases cnt,
{
    if cnt <= 0 {
        Some((Seq::empty(), i))
    } else {
        match dec_cmp(s, i) {
            None => None,
            Some((x, j)) => match dec_cmps_loop(s, j, cnt - 1) {
                None => None,
                Some((xs, k)) => Some((seq![x] + xs, k)),
            },
        }
    }
}

/// Reads a comparison list at `i`.
pub open spec fn dec_cmps(s: Seq<char>, i: int) -> Option<(Seq<ComparisonModel>, int)> {
    match dec_count(s, i) {
        None => None,
        Some((n, j)) => dec_cmps_loop(s, j, n),
    }
}

/// Concatenated comparison records written at `i` read back to themselves.
proof fn lemma_dec_enc_cmps_cat(s: Seq<char>, i: int, xs: Seq<ComparisonModel>)
    requires
        forall|q: int| 0 <= q < xs.len() ==> wf_cmp(#[trigger] xs[q]),
        0 <= i,
        i + enc_cmps_cat(xs).len() <= s.len(),
        s.subrange(i, i + enc_cmps_cat(xs).len()) == enc_cmps_cat(xs),
    ensures
        dec_cmps_loop(s, i, xs.len() as int) == Some((xs, i + enc_cmps_cat(xs).len())),
    decreases xs.len(),
{
    if xs.len() > 0 {
        let e0 = enc_cmp(xs[0]);
        let rest = enc_cmps_cat(xs.drop_first());
        lemma_split_at(s, i, e0, rest);
        lemma_dec_enc_cmp(s, i, xs[0]);
        assert forall|q: int| 0 <= q < xs.drop_first().len() implies wf_cmp(
            #[trigger] xs.drop_first()[q],
        ) by {
            assert(xs.drop_first()[q] == xs[q + 1]);
        }
        lemma_dec_enc_cmps_cat(s, i + e0.len(), xs.drop_first());
        assert(seq![xs[0]] + xs.drop_first() =~= xs);
    }
}

/// A comparison list written at `i` reads back to itself.
pub proof fn lemma_dec_enc_cmps(s: Seq<char>, i: int, xs: Seq<ComparisonModel>)
    requires
        wf_cmps(xs),
        0 <= i,
        i + enc_cmps(xs).len() <= s.len(),
        s.subrange(i, i + enc_cmps(xs).len()) == enc_cmps(xs),
    ensures
        dec_cmps(s, i) == Some((xs, i + enc_cmps(xs).len())),
{
    let a = enc_num(xs.len() as int);
    lemma_split_at(s, i, a, enc_cmps_cat(xs));
    lemma_dec_enc_count(s, i, xs.len() as int);
    lemma_dec_enc_cmps_cat(s, i + a.len(), xs);
}

/// One more comparison record extends the concatenation at its end.
proof fn lemma_enc_cat_take_step_cmp(xs: Seq<ComparisonModel>, i: int)
    requires
        0 <= i < xs.len(),
    ensures
        enc_cmps_cat(xs.take(i + 1)) == enc_cmps_cat(xs.take(i)) + enc_cmp(xs[i]),
    decreases i,
{
    if i == 0 {
        assert(xs.take(1).drop_first() =~= xs.take(0));
        assert(enc_cmps_cat(xs.take(1)) =~= enc_cmps_cat(xs.take(0)) + enc_cmp(xs[0]));
    } else {
        assert(xs.take(i + 1).drop_first() =~= xs.drop_first().take(i));
        assert(xs.take(i).drop_first() =~= xs.drop_first().take(i - 1));
        lemma_enc_cat_take_step_cmp(xs.drop_first(), i - 1);
        assert(xs.drop_first()[i - 1] == xs[i]);
        assert(enc_cmps_cat(xs.take(i + 1)) =~= enc_cmps_cat(xs.take(i)) + enc_cmp(xs[i]));
    }
}

/// Writes a comparison list, count first, onto the stream.
fn push_cmps(out: &mut Vec<char>, xs: &Vec<ProductWithComparison>)
    ensures
        final(out)@ == old(out)@ + enc_cmps(xs.deep_view()),
{
    let n = xs.len();
    push_num(out, n as u128);
    let ghost xdv = xs.deep_view();
    let mut i: usize = 0;
    while i < n
        invariant
            n == xs@.len(),
            xdv == xs.deep_view(),
            i <= n,
            out@ == old(out)@ + enc_num(n as int) + enc_cmps_cat(xdv.take(i as int)),
        decreases n - i,
    {
        push_cmp(out, &xs[i]);
        proof {
            lemma_enc_cat_take_step_cmp(xdv, i as int);
            assert(out@ =~= old(out)@ + enc_num(n as int) + enc_cmps_cat(xdv.take(i + 1)));
        }
        i = i + 1;
    }
    proof {
        assert(xdv.take(n as int) =~= xdv);
        assert(out@ =~= old(out)@ + enc_cmps(xdv));
    }
}

/// Reads a comparison list at `i`.
fn read_cmps(s: &Vec<char>, i: usize) -> (r: Option<(Vec<ProductWithComparison>, usize)>)
    requires
        i <= s@.len(),
    ensures
        match r {
            Some((xs, j)) => i < j <= s@.len() && dec_cmps(s@, i as int) == Some((
                xs.deep_view(),
                j as int,
            )),
            None => dec_cmps(s@, i as int) is None,
        },
{
    let rc = read_count(s, i);
    if rc.is_none() {
        return None;
    }
    let (cnt, j0) = rc.unwrap();
    let mut acc: Vec<ProductWithComparison> = Vec::new();
    let mut cur: usize = j0;
    let mut rem: usize = cnt;
    proof {
        match dec_cmps_loop(s@, j0 as int, cnt as int) {
            Some((t, k)) => {
                assert(acc.deep_view() + t =~= t);
            },
            None => {},
        }
    }
    while rem > 0
        invariant
            j0 <= cur <= s@.len(),
            rem <= cnt,
            dec_count(s@, i as int) == Some((cnt as int, j0 as int)),
            dec_cmps_loop(s@, j0 as int, cnt as int) == match dec_cmps_loop(
                s@,
                cur as int,
                rem as int,
            ) {
                Some((tail, k)) => Some((acc.deep_view() + tail, k)),
                None => None::<(Seq<ComparisonModel>, int)>,
            },
        decreases rem,
    {
        let ghost acc0 = acc.deep_view();
        let ghost cur0 = cur as int;
        let ghost rem0 = rem as int;
        let re = read_cmp(s, cur);
        if re.is_none() {
            return None;
        }
        let (x, j) = re.unwrap();
        let ghost xv = x@;
        acc.push(x);
        cur = j;
        rem = rem - 1;
        proof {
            assert(acc.deep_view() =~= acc0.push(xv));
            match dec_cmps_loop(s@, cur as int, rem as int) {
                Some((t, k)) => {
                    assert(dec_cmps_loop(s@, cur0, rem0) == Some((seq![xv] + t, k)));
                    assert(acc0 + (seq![xv] + t) =~= acc0.push(xv) + t);
                },
                None => {
                    assert(dec_cmps_loop(s@, cur0, rem0) is None);
                },
            }
        }
    }
    proof {
        assert(dec_cmps_loop(s@, cur as int, rem as int) == Some((
            Seq::<ComparisonModel>::empty(),
            cur as int,
        )));
        assert(acc.deep_view() + Seq::<ComparisonModel>::empty() =~= acc.deep_view());
    }
    Some((acc, cur))
}

/// A run snapshot as it stands in the stream.
#[verifier::opaque]
pub open spec fn enc_snap(x: SnapshotModel) -> Seq<char> {
    enc_num(x.run_id as int) + enc_str(x.timestamp) + enc_cmps(x.buy_products) + enc_cmps(
        x.resale_products,
    ) + enc_listings(x.sold_products) + enc_opps(x.opportunities) + enc_num(x.total_buy)
        + enc_num(x.total_resale) + enc_num(x.total_sold) + enc_opt_opp(x.best_opportunity)
}

/// A run snapshot the stream can express.
pub open spec fn wf_snap(x: SnapshotModel) -> bool {
    x.timestamp.len() <= u128::MAX && wf_cmps(x.buy_products) && wf_cmps(x.resale_products)
        && wf_listings(x.sold_products) && wf_opps(x.opportunities) && wf_count(x.total_buy)
        && wf_count(x.total_resale) && wf_count(x.total_sold) && wf_opt_opp(x.best_opportunity)
}

/// Reads a run snapshot at `i`.
#[verifier::opaque]
pub open spec fn dec_snap(s: Seq<char>, i: int) -> Option<(SnapshotModel, int)> {
    match dec_u32(s, i) {
        None => None,
        Some((run_id, i1)) => match dec_str(s, i1) {
            None => None,
            Some((timestamp, i2)) => match dec_cmps(s, i2) {
                None => None,
                Some((buy_products, i3)) => match dec_cmps(s, i3) {
                    None => None,
                    Some((resale_products, i4)) => match dec_listings(s, i4) {
                        None => None,
                        Some((sold_products, i5)) => match dec_opps(s, i5) {
                            None => None,
                            Some((opportunities, i6)) => match dec_count(s, i6) {
                                None => None,
                                Some((total_buy, i7)) => match dec_count(s, i7) {
                                    None => None,
                                    Some((total_resale, i8)) => match dec_count(s, i8) {
                                        None => None,
                                        Some((total_sold, i9)) => match dec_opt_opp(s, i9) {
                                            None => None,
                                            Some((best_opportunity, i10)) => Some(
                                                (
                                                    SnapshotModel {
                                                        run_id,
                                                        timestamp,
                                                        buy_products,
                                                        resale_products,
                                                        sold_products,
                                                        opportunities,
                                                        total_buy,
                                                        total_resale,
                                                        total_sold,
                                                        best_opportunity,
                                                    },
                                                    i10,
                                                ),
                                            ),
                                        },
                                    },
                                },
                            },
                        },
                    },
                },
            },
        },
    }
}

/// A run snapshot written at `i` reads back to itself.
#[verifier::rlimit(100)]
#[verifier::spinoff_prover]
pub proof fn lemma_dec_enc_snap(s: Seq<char>, i: int, x: SnapshotModel)
    requires
        wf_snap(x),
        0 <= i,
        i + enc_snap(x).len() <= s.len(),
        s.subrange(i, i + enc_snap(x).len()) == enc_snap(x),
    ensures
        dec_snap(s, i) == Some((x, i + enc_snap(x).len())),
{
    reveal(enc_snap);
    reveal(dec_snap);
    let e1 = enc_num(x.run_id as int);
    let e2 = enc_str(x.timestamp);
    let e3 = enc_cmps(x.buy_products);
    let e4 = enc_cmps(x.resale_products);
    let e5 = enc_listings(x.sold_products);
    let e6 = enc_opps(x.opportunities);
    let e7 = enc_num(x.total_buy);
    let e8 = enc_num(x.total_resale);
    let e9 = enc_num(x.total_sold);
    let e10 = enc_opt_opp(x.best_opportunity);
    let r2 = e2 + (e3 + (e4 + (e5 + (e6 + (e7 + (e8 + (e9 + e10)))))));
    assert(enc_snap(x) =~= e1 + r2);
    lemma_split_at(s, i, e1, r2);
    lemma_dec_enc_u32(s, i, x.run_id);
    let i1 = i + e1.len();
    let r3 = e3 + (e4 + (e5 + (e6 + (e7 + (e8 + (e9 + e10))))));
    lemma_split_at(s, i1, e2, r3);
    lemma_dec_enc_str(s, i1, x.timestamp);
    let i2 = i1 + e2.len();
    let r4 = e4 + (e5 + (e6 + (e7 + (e8 + (e9 + e10)))));
    lemma_split_at(s, i2, e3, r4);
    lemma_dec_enc_cmps(s, i2, x.buy_products);
    let i3 = i2 + e3.len();
    let r5 = e5 + (e6 + (e7 + (e8 + (e9 + e10))));
    lemma_split_at(s, i3, e4, r5);
    lemma_dec_enc_cmps(s, i3, x.resale_products);
    let i4 = i3 + e4.len();
    let r6 = e6 + (e7 + (e8 + (e9 + e10)));
    lemma_split_at(s, i4, e5, r6);
    lemma_dec_enc_listings(s, i4, x.sold_products);
    let i5 = i4 + e5.len();
    let r7 = e7 + (e8 + (e9 + e10));
    lemma_split_at(s, i5, e6, r7);
    lemma_dec_enc_opps(s, i5, x.opportunities);
    let i6 = i5 + e6.len();
    let r8 = e8 + (e9 + e10);
    lemma_split_at(s, i6, e7, r8);
    lemma_dec_enc_count(s, i6, x.total_buy);
    let i7 = i6 + e7.len();
    let r9 = e9 + e10;
    lemma_split_at(s, i7, e8, r9);
    lemma_dec_enc_count(s, i7, x.total_resale);
    let i8 = i7 + e8.len();
    lemma_split_at(s, i8, e9, e10);
    lemma_dec_enc_count(s, i8, x.total_sold);
    let i9 = i8 + e9.len();
    lemma_dec_enc_opt_opp(s, i9, x.best_opportunity);
}

/// Writes a run snapshot onto the stream.
#[verifier::rlimit(100)]
#[verifier::spinoff_prover]
fn push_snap(out: &mut Vec<char>, x: &RunSnapshot)
    ensures
        final(out)@ == old(out)@ + enc_snap(x@),
{
    push_num(out, x.run_id as u128);
    push_str(out, x.timestamp.as_str());
    push_cmps(out, &x.buy_products);
    push_cmps(out, &x.resale_products);
    push_listings(out, &x.sold_products);
    push_opps(out, &x.opportunities);
    push_num(out, x.total_buy as u128);
    push_num(out, x.total_resale as u128);
    push_num(out, x.total_sold as u128);
    push_opt_opp(out, &x.best_opportunity);
    proof {
        reveal(enc_snap);
        assert(out@ =~= old(out)@ + enc_snap(x@));
    }
}

/// Reads a run snapshot at `i`.
fn read_snap(s: &Vec<char>, i: usize) -> (r: Option<(RunSnapshot, usize)>)
    requires
        i <= s@.len(),
    ensures
        match r {
            Some((x, j)) => i < j <= s@.len() && dec_snap(s@, i as int) == Some((x@, j as int)),
            None => dec_snap(s@, i as int) is None,
        },
{
    proof {
        reveal(dec_snap);
    }
    let r1 = read_u32(s, i);
    if r1.is_none() {
        return None;
    }
    let (run_id, i1) = r1.unwrap();
    let r2 = read_str(s, i1);
    if r2.is_none() {
        return None;
    }
    let (timestamp, i2) = r2.unwrap();
    let r3 = read_cmps(s, i2);
    if r3.is_none() {
        return None;
    }
    let (buy_products, i3) = r3.unwrap();
    let r4 = read_cmps(s, i3);
    if r4.is_none() {
        return None;
    }
    let (resale_products, i4) = r4.unwrap();
    let r5 = read_listings(s, i4);
    if r5.is_none() {
        return None;
    }
    let (sold_products, i5) = r5.unwrap();
    let r6 = read_opps(s, i5);
    if r6.is_none() {
        return None;
    }
    let (opportunities, i6) = r6.unwrap();
    let r7 = read_count(s, i6);
    if r7.is_none() {
        return None;
    }
    let (total_buy, i7) = r7.unwrap();
    let r8 = read_count(s, i7);
    if r8.is_none() {
        return None;
    }
    let (total_resale, i8) = r8.unwrap();
    let r9 = read_count(s, i8);
    if r9.is_none() {
        return None;
    }
    let (total_sold, i9) = r9.unwrap();
    let r10 = read_opt_opp(s, i9);
    if r10.is_none() {
        return None;
    }
    let (best_opportunity, i10) = r10.unwrap();
    Some(
        (
            RunSnapshot {
                run_id,
                timestamp,
                buy_products,
                resale_products,
                sold_products,
                opportunities,
                total_buy,
                total_resale,
                total_sold,
                best_opportunity,
            },
            i10,
        ),
    )
}

/// The elements of a snapshot list, one after the other.
pub open spec fn enc_snaps_cat(xs: Seq<SnapshotModel>) -> Seq<char>
    decreases xs.len(),
{
    if xs.len() == 0 {
        Seq::empty()
    } else {
        enc_snap(xs[0]) + enc_snaps_cat(xs.drop_first())
    }
}

/// A snapshot list as it stands in the stream.
pub open spec fn enc_snaps(xs: Seq<SnapshotModel>) -> Seq<char> {
    enc_num(xs.len() as int) + enc_snaps_cat(xs)
}

/// A snapshot list the stream can express.
pub open spec fn wf_snaps(xs: Seq<SnapshotModel>) -> bool {
    xs.len() <= usize::MAX && forall|q: int| 0 <= q < xs.len() ==> wf_snap(#[trigger] xs[q])
}

/// Reads `cnt` snapshots at `i`.
pub open spec fn dec_snaps_loop(s: Seq<char>, i: int, cnt: int) -> Option<
    (Seq<SnapshotModel>, int),
>
    decreases cnt,
{
    if cnt <= 0 {
        Some((Seq::empty(), i))
    } else {
        match dec_snap(s, i) {
            None => None,
            Some((x, j)) => match dec_snaps_loop(s, j, cnt - 1) {
                None => None,
                Some((xs, k)) => Some((seq![x] + xs, k)),
            },
        }
    }
}

/// Reads a snapshot list at `i`.
pub open spec fn dec_snaps(s: Seq<char>, i: int) -> Option<(Seq<SnapshotModel>, int)> {
    match dec_count(s, i) {
        None => None,
        Some((n, j)) => dec_snaps_loop(s, j, n),
    }
}

/// Concatenated snapshots written at `i` read back to themselves.
#[verifier::rlimit(100)]
#[verifier::spinoff_prover]
proof fn lemma_dec_enc_snaps_cat(s: Seq<char>, i: int, xs: Seq<SnapshotModel>)
    requires
        forall|q: int| 0 <= q < xs.len() ==> wf_snap(#[trigger] xs[q]),
        0 <= i,
        i + enc_snaps_cat(xs).len() <= s.len(),
        s.subrange(i, i + enc_snaps_cat(xs).len()) == enc_snaps_cat(xs),
    ensures
        dec_snaps_loop(s, i, xs.len() as int) == Some((xs, i + enc_snaps_cat(xs).len())),
    decreases xs.len(),
{
    if xs.len() > 0 {
        let e0 = enc_snap(xs[0]);
        let rest = enc_snaps_cat(xs.drop_first());
        lemma_split_at(s, i, e0, rest);
        lemma_dec_enc_snap(s, i, xs[0]);
        assert forall|q: int| 0 <= q < xs.drop_first().len() implies wf_snap(
            #[trigger] xs.drop_first()[q],
        ) by {
            assert(xs.drop_first()[q] == xs[q + 1]);
        }
        lemma_dec_enc_snaps_cat(s, i + e0.len(), xs.drop_first());
        assert(seq![xs[0]] + xs.drop_first() =~= xs);
    }
}

/// A snapshot list written at `i` reads back to itself.
#[verifier::rlimit(100)]
#[verifier::spinoff_prover]
pub proof fn lemma_dec_enc_snaps(s: Seq<char>, i: int, xs: Seq<SnapshotModel>)
    requires
        wf_snaps(xs),
        0 <= i,
        i + enc_snaps(xs).len() <= s.len(),
        s.subrange(i, i + enc_snaps(xs).len()) == enc_snaps(xs),
    ensures
        dec_snaps(s, i) == Some((xs, i + enc_snaps(xs).len())),
{
    let a = enc_num(xs.len() as int);
    lemma_split_at(s, i, a, enc_snaps_cat(xs));
    lemma_dec_enc_count(s, i, xs.len() as int);
    lemma_dec_enc_snaps_cat(s, i + a.len(), xs);
}

/// One more snapshot extends the concatenation at its end.
#[verifier::rlimit(100)]
#[verifier::spinoff_prover]
proof fn lemma_enc_cat_take_step_snap(xs: Seq<SnapshotModel>, i: int)
    requires
        0 <= i < xs.len(),
    ensures
        enc_snaps_cat(xs.take(i + 1)) == enc_snaps_cat(xs.take(i)) + enc_snap(xs[i]),
    decreases i,
{
    if i == 0 {
        assert(xs.take(1).drop_first() =~= xs.take(0));
        assert(enc_snaps_cat(xs.take(1)) =~= enc_snaps_cat(xs.take(0)) + enc_snap(xs[0]));
    } else {
        assert(xs.take(i + 1).drop_first() =~= xs.drop_first().take(i));
        assert(xs.take(i).drop_first() =~= xs.drop_first().take(i - 1));
        lemma_enc_cat_take_step_snap(xs.drop_first(), i - 1);
        assert(xs.drop_first()[i - 1] == xs[i]);
        assert(enc_snaps_cat(xs.take(i + 1)) =~= enc_snaps_cat(xs.take(i)) + enc_snap(xs[i]));
    }
}

/// Writes a snapshot list, count first, onto the stream.
#[verifier::rlimit(100)]
#[verifier::spinoff_prover]
fn push_snaps(out: &mut Vec<char>, xs: &Vec<RunSnapshot>)
    ensures
        final(out)@ == old(out)@ + enc_snaps(xs.deep_view()),
{
    let n = xs.len();
    push_num(out, n as u128);
    let ghost xdv = xs.deep_view();
    let mut i: usize = 0;
    while i < n
        invariant
            n == xs@.len(),
            xdv == xs.deep_view(),
            i <= n,
            out@ == old(out)@ + enc_num(n as int) + enc_snaps_cat(xdv.take(i as int)),
        decreases n - i,
    {
        push_snap(out, &xs[i]);
        proof {
            lemma_enc_cat_take_step_snap(xdv, i as int);
            assert(out@ =~= old(out)@ + enc_num(n as int) + enc_snaps_cat(xdv.take(i + 1)));
        }
        i = i + 1;
    }
    proof {
        assert(xdv.take(n as int) =~= xdv);
        assert(out@ =~= old(out)@ + enc_snaps(xdv));
    }
}

/// Reads a snapshot list at `i`.
#[verifier::rlimit(100)]
#[verifier::spinoff_prover]
fn read_snaps(s: &Vec<char>, i: usize) -> (r: Option<(Vec<RunSnapshot>, usize)>)
    requires
        i <= s@.len(),
    ensures
        match r {
            Some((xs, j)) => i < j <= s@.len() && dec_snaps(s@, i as int) == Some((
                xs.deep_view(),
                j as int,
            )),
            None => dec_snaps(s@, i as int) is None,
        },
{
    let rc = read_count(s, i);
    if rc.is_none() {
        return None;
    }
    let (cnt, j0) = rc.unwrap();
    let mut acc: Vec<RunSnapshot> = Vec::new();
    let mut cur: usize = j0;
    let mut rem: usize = cnt;
    proof {
        match dec_snaps_loop(s@, j0 as int, cnt as int) {
            Some((t, k)) => {
                assert(acc.deep_view() + t =~= t);
            },
            None => {},
        }
    }
    while rem > 0
        invariant
            j0 <= cur <= s@.len(),
            rem <= cnt,
            dec_count(s@, i as int) == Some((cnt as int, j0 as int)),
            dec_snaps_loop(s@, j0 as int, cnt as int) == match dec_snaps_loop(
                s@,
                cur as int,
                rem as int,
            ) {
                Some((tail, k)) => Some((acc.deep_view() + tail, k)),
                None => None::<(Seq<SnapshotModel>, int)>,
            },
        decreases rem,
    {
        let ghost acc0 = acc.deep_view();
        let ghost cur0 = cur as int;
        let ghost rem0 = rem as int;
        let re = read_snap(s, cur);
        if re.is_none() {
            return None;
        }
        let (x, j) = re.unwrap();
        let ghost xv = x@;
        acc.push(x);
        cur = j;
        rem = rem - 1;
        proof {
            assert(acc.deep_view() =~= acc0.push(xv));
            match dec_snaps_loop(s@, cur as int, rem as int) {
                Some((t, k)) => {
                    assert(dec_snaps_loop(s@, cur0, rem0) == Some((seq![xv] + t, k)));
                    assert(acc0 + (seq![xv] + t) =~= acc0.push(xv) + t);
                },
                None => {
                    assert(dec_snaps_loop(s@, cur0, rem0) is None);
                },
            }
        }
    }
    proof {
        assert(dec_snaps_loop(s@, cur as int, rem as int) == Some((
            Seq::<SnapshotModel>::empty(),
            cur as int,
        )));
        assert(acc.deep_view() + Seq::<SnapshotModel>::empty() =~= acc.deep_view());
    }
    Some((acc, cur))
}

/// The aggregate document as it stands in its file.
pub open spec fn enc_aggregate(a: AggregateModel) -> Seq<char> {
    enc_str(a.last_updated) + enc_num(a.run_count as int) + enc_listings(a.buy_products)
        + enc_listings(a.resale_products) + enc_listings(a.sold_products) + enc_opps(
        a.opportunities,
    ) + enc_num(a.total_tracked) + enc_snaps(a.history)
}

/// An aggregate the file format can express: every count fits the machine
/// word and every string fits the stream's counts.
pub open spec fn wf_aggregate(a: AggregateModel) -> bool {
    a.last_updated.len() <= u128::MAX && wf_listings(a.buy_products) && wf_listings(
        a.resale_products,
    ) && wf_listings(a.sold_products) && wf_opps(a.opportunities) && wf_count(a.total_tracked)
        && wf_snaps(a.history)
}

/// Reads an aggregate at `i`.
pub open spec fn dec_aggregate_at(s: Seq<char>, i: int) -> Option<(AggregateModel, int)> {
    match dec_str(s, i) {
        None => None,
        Some((last_updated, i1)) => match dec_u32(s, i1) {
            None => None,
            Some((run_count, i2)) => match dec_listings(s, i2) {
                None => None,
                Some((buy_products, i3)) => match dec_listings(s, i3) {
                    None => None,
                    Some((resale_products, i4)) => match dec_listings(s, i4) {
                        None => None,
                        Some((sold_products, i5)) => match dec_opps(s, i5) {
                            None => None,
                            Some((opportunities, i6)) => match dec_count(s, i6) {
                                None => None,
                                Some((total_tracked, i7)) => match dec_snaps(s, i7) {
                                    None => None,
                                    Some((history, i8)) => Some(
                                        (
                                            AggregateModel {
                                                last_updated,
                                                run_count,
                                                buy_products,
                                                resale_products,
                                                sold_products,
                                                opportunities,
                                                total_tracked,
                                                history,
                                            },
                                            i8,
                                        ),
                                    ),
                                },
                            },
                        },
                    },
                },
            },
        },
    }
}

/// What the aggregate file decodes to: the aggregate, which must fill the
/// whole stream.
pub open spec fn dec_aggregate_file(s: Seq<char>) -> Option<AggregateModel> {
    match dec_aggregate_at(s, 0) {
        None => None,
        Some((a, j)) => if j == s.len() {
            Some(a)
        } else {
            None
        },
    }
}

/// An aggregate written at `i` reads back to itself.
#[verifier::rlimit(100)]
#[verifier::spinoff_prover]
pub proof fn lemma_dec_enc_aggregate(s: Seq<char>, i: int, a: AggregateModel)
    requires
        wf_aggregate(a),
        0 <= i,
        i + enc_aggregate(a).len() <= s.len(),
        s.subrange(i, i + enc_aggregate(a).len()) == enc_aggregate(a),
    ensures
        dec_aggregate_at(s, i) == Some((a, i + enc_aggregate(a).len())),
{
    let e1 = enc_str(a.last_updated);
    let e2 = enc_num(a.run_count as int);
    let e3 = enc_listings(a.buy_products);
    let e4 = enc_listings(a.resale_products);
    let e5 = enc_listings(a.sold_products);
    let e6 = enc_opps(a.opportunities);
    let e7 = enc_num(a.total_tracked);
    let e8 = enc_snaps(a.history);
    let r2 = e2 + (e3 + (e4 + (e5 + (e6 + (e7 + e8)))));
    assert(enc_aggregate(a) =~= e1 + r2);
    lemma_split_at(s, i, e1, r2);
    lemma_dec_enc_str(s, i, a.last_updated);
    let i1 = i + e1.len();
    let r3 = e3 + (e4 + (e5 + (e6 + (e7 + e8))));
    lemma_split_at(s, i1, e2, r3);
    lemma_dec_enc_u32(s, i1, a.run_count);
    let i2 = i1 + e2.len();
    let r4 = e4 + (e5 + (e6 + (e7 + e8)));
    lemma_split_at(s, i2, e3, r4);
    lemma_dec_enc_listings(s, i2, a.buy_products);
    let i3 = i2 + e3.len();
    let r5 = e5 + (e6 + (e7 + e8));
    lemma_split_at(s, i3, e4, r5);
    lemma_dec_enc_listings(s, i3, a.resale_products);
    let i4 = i3 + e4.len();
    let r6 = e6 + (e7 + e8);
    lemma_split_at(s, i4, e5, r6);
    lemma_dec_enc_listings(s, i4, a.sold_products);
    let i5 = i4 + e5.len();
    let r7 = e7 + e8;
    lemma_split_at(s, i5, e6, r7);
    lemma_dec_enc_opps(s, i5, a.opportunities);
    let i6 = i5 + e6.len();
    lemma_split_at(s, i6, e7, e8);
    lemma_dec_enc_count(s, i6, a.total_tracked);
    let i7 = i6 + e7.len();
    lemma_dec_enc_snaps(s, i7, a.history);
}

/// The aggregate round trip, as a law: saving an expressible aggregate and
/// loading what was saved reproduces it exactly — in particular the run
/// history, in order and contents.
pub proof fn lemma_aggregate_round_trip(a: AggregateModel)
    requires
        wf_aggregate(a),
    ensures
        dec_aggregate_file(enc_aggregate(a)) == Some(a),
{
    let s = enc_aggregate(a);
    assert(s.subrange(0, s.len() as int) =~= s);
    lemma_dec_enc_aggregate(s, 0, a);
}

/// Serializes the aggregate document for its file.
pub fn encode_aggregate(a: &Aggregate) -> (out: Vec<char>)
    ensures
        out@ == enc_aggregate(a@),
{
    let mut out: Vec<char> = Vec::new();
    push_str(&mut out, a.last_updated.as_str());
    push_num(&mut out, a.run_count as u128);
    push_listings(&mut out, &a.buy_products);
    push_listings(&mut out, &a.resale_products);
    push_listings(&mut out, &a.sold_products);
    push_opps(&mut out, &a.opportunities);
    push_num(&mut out, a.total_tracked as u128);
    push_snaps(&mut out, &a.history.runs);
    proof {
        assert(out@ =~= enc_aggregate(a@));
    }
    out
}

/// Deserializes the aggregate document from its file's characters; a
/// malformed file yields nothing, and the caller falls back to an empty
/// history.
pub fn decode_aggregate(s: &Vec<char>) -> (r: Option<Aggregate>)
    ensures
        match r {
            Some(a) => dec_aggregate_file(s@) == Some(a@),
            None => dec_aggregate_file(s@) is None,
        },
{
    let r1 = read_str(s, 0);
    if r1.is_none() {
        return None;
    }
    let (last_updated, i1) = r1.unwrap();
    let r2 = read_u32(s, i1);
    if r2.is_none() {
        return None;
    }
    let (run_count, i2) = r2.unwrap();
    let r3 = read_listings(s, i2);
    if r3.is_none() {
        return None;
    }
    let (buy_products, i3) = r3.unwrap();
    let r4 = read_listings(s, i3);
    if r4.is_none() {
        return None;
    }
    let (resale_products, i4) = r4.unwrap();
    let r5 = read_listings(s, i4);
    if r5.is_none() {
        return None;
    }
    let (sold_products, i5) = r5.unwrap();
    let r6 = read_opps(s, i5);
    if r6.is_none() {
        return None;
    }
    let (opportunities, i6) = r6.unwrap();
    let r7 = read_count(s, i6);
    if r7.is_none() {
        return None;
    }
    let (total_tracked, i7) = r7.unwrap();
    let r8 = read_snaps(s, i7);
    if r8.is_none() {
        return None;
    }
    let (runs, i8) = r8.unwrap();
    if i8 != s.len() {
        return None;
    }
    Some(
        Aggregate {
            last_updated,
            run_count,
            buy_products,
            resale_products,
            sold_products,
            opportunities,
            total_tracked,
            history: HistoryLog { runs },
        },
    )
}

} // verus!
