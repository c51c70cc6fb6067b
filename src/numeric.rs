//! Fixed-point numbers and the text grammar for the numeric columns.

use vstd::prelude::*;

verus! {

/// Number of fixed-point units in one whole unit.
pub const SCALE: u64 = 1_000_000;

/// Largest whole part that a decimal field may carry.
pub const MAX_WHOLE: u64 = 1_000_000_000_000;

pub open spec fn is_digit(c: u8) -> bool {
    48 <= c && c <= 57
}

pub open spec fn all_digits(s: Seq<u8>) -> bool {
    forall|i: int| 0 <= i < s.len() ==> is_digit(#[trigger] s[i])
}

/// The value of a string of decimal digits, most significant first.
pub open spec fn digits_value(s: Seq<u8>) -> nat
    decreases s.len(),
{
    if s.len() == 0 {
        0
    } else {
        digits_value(s.drop_last()) * 10 + (s.last() - 48) as nat
    }
}

/// Number of leading decimal digits.
pub open spec fn digit_run(s: Seq<u8>) -> nat
    decreases s.len(),
{
    if s.len() > 0 && is_digit(s[0]) {
        1 + digit_run(s.drop_first())
    } else {
        0
    }
}

pub open spec fn pow10(n: nat) -> nat
    decreases n,
{
    if n == 0 {
        1
    } else {
        10 * pow10((n - 1) as nat)
    }
}

/// A field without its optional leading `+`.
pub open spec fn unsigned_body(b: Seq<u8>) -> Seq<u8> {
    if b.len() > 0 && b[0] == 43 {
        b.drop_first()
    } else {
        b
    }
}

/// Micro-units contributed by fraction digits: the first six count, the rest are dropped.
pub open spec fn frac_units(f: Seq<u8>) -> nat {
    let k: nat = if f.len() < 6 { f.len() } else { 6 };
    digits_value(f.take(k as int)) * pow10((6 - k) as nat)
}

/// An unsigned decimal, `[+]digits[.digits]` with at least one digit,
/// in fixed-point units; fraction digits past the sixth are dropped.
/// `None` when the text is not of that shape (an exponent, `NaN` or `inf`
/// included) or its whole part exceeds `MAX_WHOLE`, so no non-finite value
/// ever enters a record.
pub open spec fn magnitude_of(b: Seq<u8>) -> Option<int> {
    let body = unsigned_body(b);
    let n = digit_run(body);
    let whole = body.take(n as int);
    let rest = body.skip(n as int);
    let frac = if rest.len() > 0 { rest.drop_first() } else { rest };
    if (rest.len() == 0 || (rest[0] == 46 && all_digits(frac))) && whole.len() + frac.len() > 0
        && digits_value(whole) <= MAX_WHOLE {
        Some(digits_value(whole) * SCALE + frac_units(frac))
    } else {
        None
    }
}

/// A decimal with an optional leading sign, in fixed-point units: a `-`
/// negates the unsigned decimal after it, which may not carry a `+` of its own.
pub open spec fn decimal_of(b: Seq<u8>) -> Option<int> {
    if b.len() > 0 && b[0] == 45 {
        let rest = b.drop_first();
        if rest.len() > 0 && rest[0] == 43 {
            None
        } else {
            match magnitude_of(rest) {
                Some(m) => Some(-m),
                None => None,
            }
        }
    } else {
        magnitude_of(b)
    }
}

/// A non-negative integer counter, `[+]digits`, that fits in `u64`.
pub open spec fn count_of(b: Seq<u8>) -> Option<nat> {
    let body = unsigned_body(b);
    if body.len() > 0 && all_digits(body) && digits_value(body) <= u64::MAX {
        Some(digits_value(body))
    } else {
        None
    }
}

proof fn lemma_digit_run(s: Seq<u8>, k: int)
    requires
        0 <= k <= s.len(),
        forall|i: int| 0 <= i < k ==> is_digit(#[trigger] s[i]),
        k == s.len() || !is_digit(s[k]),
    ensures
        digit_run(s) == k,
    decreases k,
{
    if k > 0 {
        let t = s.drop_first();
        assert forall|i: int| 0 <= i < k - 1 implies is_digit(#[trigger] t[i]) by {
            assert(t[i] == s[i + 1]);
        }
        if k < s.len() {
            assert(t[k - 1] == s[k]);
        }
        lemma_digit_run(t, k - 1);
    }
}

proof fn lemma_digits_step(s: Seq<u8>, lo: int, hi: int)
    requires
        0 <= lo <= hi < s.len(),
    ensures
        digits_value(s.subrange(lo, hi + 1)) == digits_value(s.subrange(lo, hi)) * 10 + (s[hi]
            - 48) as nat,
{
    assert(s.subrange(lo, hi + 1).drop_last() =~= s.subrange(lo, hi));
}

proof fn lemma_digits_mono(s: Seq<u8>, k: int)
    requires
        0 <= k <= s.len(),
        all_digits(s),
    ensures
        digits_value(s.take(k)) <= digits_value(s),
    decreases s.len() - k,
{
    if k < s.len() {
        lemma_digits_mono(s, k + 1);
        assert(s.take(k + 1).drop_last() =~= s.take(k));
        assert(is_digit(s[k]));
    }
    else {
        assert(s.take(k) =~= s);
    }
}

proof fn lemma_digit_run_facts(s: Seq<u8>)
    ensures
        digit_run(s) <= s.len(),
        forall|i: int| 0 <= i < digit_run(s) ==> is_digit(#[trigger] s[i]),
        digit_run(s) < s.len() ==> !is_digit(s[digit_run(s) as int]),
    decreases s.len(),
{
    if s.len() > 0 && is_digit(s[0]) {
        let t = s.drop_first();
        lemma_digit_run_facts(t);
        assert forall|i: int| 0 <= i < digit_run(s) implies is_digit(#[trigger] s[i]) by {
            if i > 0 {
                assert(s[i] == t[i - 1]);
            }
        }
        if digit_run(s) < s.len() {
            assert(s[digit_run(s) as int] == t[digit_run(t) as int]);
        }
    }
}

proof fn lemma_pow10_small()
    ensures
        pow10(0) == 1,
        pow10(1) == 10,
        pow10(2) == 100,
        pow10(3) == 1000,
        pow10(4) == 10000,
        pow10(5) == 100000,
        pow10(6) == 1000000,
{
    reveal_with_fuel(pow10, 7);
}

/// When the first `k` bytes are digits, the value of that prefix bounds the
/// value of the whole leading digit run from below.
proof fn lemma_run_prefix(s: Seq<u8>, k: int)
    requires
        0 <= k <= s.len(),
        forall|i: int| 0 <= i < k ==> is_digit(#[trigger] s[i]),
    ensures
        k <= digit_run(s),
        digits_value(s.take(k)) <= digits_value(s.take(digit_run(s) as int)),
{
    lemma_digit_run_facts(s);
    let m = digit_run(s) as int;
    let w = s.take(m);
    assert(all_digits(w));
    lemma_digits_mono(w, k);
    assert(w.take(k) =~= s.take(k));
}

/// Reads an unsigned decimal in fixed-point units.
#[verifier::rlimit(40)]
fn parse_magnitude(b: &[u8]) -> (r: Option<u64>)
    ensures
        r matches Some(v) ==> magnitude_of(b@) == Some(v as int) && v <= MAX_WHOLE * SCALE + 999_999,
        r is None ==> magnitude_of(b@) is None,
{
    let n = b.len();
    let start: usize = if n > 0 && b[0] == 43 { 1 } else { 0 };
    let ghost body = unsigned_body(b@);
    assert(body =~= b@.subrange(start as int, n as int));
    let mut i: usize = start;
    let mut whole: u64 = 0;
    while i < n && 48 <= b[i] && b[i] <= 57
        invariant
            start <= i <= n,
            n == b@.len(),
            body =~= b@.subrange(start as int, n as int),
            body == unsigned_body(b@),
            whole <= MAX_WHOLE,
            whole == digits_value(body.take(i - start)),
            forall|k: int| 0 <= k < i - start ==> is_digit(#[trigger] body[k]),
        decreases n - i,
    {
        proof {
            lemma_digits_step(body, 0, i - start);
            assert(body.take(i - start) =~= body.subrange(0, i - start));
            assert(body.take(i - start + 1) =~= body.subrange(0, i - start + 1));
        }
        whole = whole * 10 + (b[i] - 48) as u64;
        i = i + 1;
        if whole > MAX_WHOLE {
            proof {
                assert(body[i - start - 1] == b@[i - 1]);
                assert forall|k: int| 0 <= k < i - start implies is_digit(#[trigger] body[k]) by {
                    if k == i - start - 1 {
                        assert(body[k] == b@[i - 1]);
                    }
                }
                lemma_run_prefix(body, i - start);
            }
            return None;
        }
    }
    proof {
        lemma_digit_run(body, i - start);
        lemma_pow10_small();
    }
    let ghost m = i - start;
    let ghost rest = body.skip(m);
    if i == n {
        if i == start {
            return None;
        }
        assert(rest.len() == 0);
        assert(body.take(m).len() > 0);
        assert(frac_units(rest) == 0) by {
            assert(rest.take(0) =~= Seq::<u8>::empty());
            assert(digits_value(rest.take(0)) == 0);
            assert(0 * pow10(6) == 0);
        }
        return Some(whole * SCALE);
    }
    assert(rest[0] == b@[i as int]);
    if b[i] != 46 {
        return None;
    }
    let ghost frac = rest.drop_first();
    assert(frac =~= b@.subrange(i + 1, n as int));
    let mut j: usize = i + 1;
    let mut cnt: usize = 0;
    let mut acc: u64 = 0;
    while j < n
        invariant
            i < j <= n,
            n == b@.len(),
            frac =~= b@.subrange(i + 1, n as int),
            frac == rest.drop_first(),
            rest == body.skip(m),
            body == unsigned_body(b@),
            m == i - start,
            m == digit_run(body),
            whole == digits_value(body.take(m)),
            whole <= MAX_WHOLE,
            rest.len() > 0 && rest[0] == 46,
            cnt <= 6,
            cnt == (if j - i - 1 < 6 { j - i - 1 } else { 6 }),
            acc == digits_value(frac.take(cnt as int)),
            acc < pow10(cnt as nat),
            pow10(0) == 1 && pow10(1) == 10 && pow10(2) == 100 && pow10(3) == 1000 && pow10(4)
                == 10000 && pow10(5) == 100000 && pow10(6) == 1000000,
            forall|k: int| 0 <= k < j - i - 1 ==> is_digit(#[trigger] frac[k]),
        decreases n - j,
    {
        assert(frac[j - i - 1] == b@[j as int]);
        if b[j] < 48 || b[j] > 57 {
            assert(!is_digit(frac[j - i - 1]));
            assert(!all_digits(frac));
            return None;
        }
        if cnt < 6 {
            proof {
                lemma_digits_step(frac, 0, cnt as int);
                assert(frac.take(cnt as int) =~= frac.subrange(0, cnt as int));
                assert(frac.take(cnt + 1) =~= frac.subrange(0, cnt + 1));
            }
            acc = acc * 10 + (b[j] - 48) as u64;
            cnt = cnt + 1;
        }
        j = j + 1;
    }
    if i == start && n == i + 1 {
        return None;
    }
    let ghost k = cnt;
    assert(all_digits(frac));
    assert(acc == digits_value(frac.take(k as int)));
    assert(pow10((cnt - k) as nat) == 1);
    assert(acc == digits_value(frac.take(k as int)) * pow10((cnt - k) as nat));
    while cnt < 6
        invariant
            k <= cnt <= 6,
            k == (if frac.len() < 6 { frac.len() } else { 6 }),
            acc == digits_value(frac.take(k as int)) * pow10((cnt - k) as nat),
            acc < pow10(cnt as nat),
            pow10(0) == 1 && pow10(1) == 10 && pow10(2) == 100 && pow10(3) == 1000 && pow10(4)
                == 10000 && pow10(5) == 100000 && pow10(6) == 1000000,
        decreases 6 - cnt,
    {
        proof {
            assert(pow10((cnt + 1 - k) as nat) == 10 * pow10((cnt - k) as nat));
            assert(pow10((cnt + 1) as nat) == 10 * pow10(cnt as nat));
            broadcast use vstd::arithmetic::mul::lemma_mul_is_associative;
        }
        acc = acc * 10;
        cnt = cnt + 1;
    }
    assert(acc == frac_units(frac));
    Some(whole * SCALE + acc)
}

/// Reads a signed decimal in fixed-point units.
pub fn parse_decimal(b: &[u8]) -> (r: Option<i64>)
    ensures
        r matches Some(v) ==> decimal_of(b@) == Some(v as int),
        r is None ==> decimal_of(b@) is None,
{
    let n = b.len();
    if n > 0 && b[0] == 45 {
        if n > 1 && b[1] == 43 {
            return None;
        }
        let rest = &b[1..n];
        assert(rest@ =~= b@.drop_first());
        match parse_magnitude(rest) {
            Some(m) => Some(-(m as i64)),
            None => None,
        }
    } else {
        match parse_magnitude(b) {
            Some(m) => Some(m as i64),
            None => None,
        }
    }
}

/// Reads a non-negative integer counter.
pub fn parse_count(b: &[u8]) -> (r: Option<u64>)
    ensures
        r matches Some(v) ==> count_of(b@) == Some(v as nat),
        r is None ==> count_of(b@) is None,
{
    let n = b.len();
    let start: usize = if n > 0 && b[0] == 43 { 1 } else { 0 };
    let ghost body = unsigned_body(b@);
    assert(body =~= b@.subrange(start as int, n as int));
    if start == n {
        return None;
    }
    let mut i: usize = start;
    let mut v: u64 = 0;
    while i < n
        invariant
            start <= i <= n,
            n == b@.len(),
            body =~= b@.subrange(start as int, n as int),
            body == unsigned_body(b@),
            v == digits_value(body.take(i - start)),
            forall|k: int| 0 <= k < i - start ==> is_digit(#[trigger] body[k]),
        decreases n - i,
    {
        assert(body[i - start] == b@[i as int]);
        if b[i] < 48 || b[i] > 57 {
            assert(!is_digit(body[i - start]));
            assert(!all_digits(body));
            return None;
        }
        proof {
            lemma_digits_step(body, 0, i - start);
            assert(body.take(i - start) =~= body.subrange(0, i - start));
            assert(body.take(i - start + 1) =~= body.subrange(0, i - start + 1));
        }
        let d = (b[i] - 48) as u64;
        match v.checked_mul(10) {
            Some(t) => match t.checked_add(d) {
                Some(u) => {
                    v = u;
                },
                None => {
                    proof {
                        if all_digits(body) {
                            lemma_digits_mono(body, i - start + 1);
                            assert(digits_value(body.take(i - start + 1)) == v * 10 + d);
                        }
                    }
                    return None;
                },
            },
            None => {
                proof {
                    if all_digits(body) {
                        lemma_digits_mono(body, i - start + 1);
                        assert(digits_value(body.take(i - start + 1)) == v * 10 + d);
                    }
                }
                return None;
            },
        }
        i = i + 1;
    }
    assert(body.take(n - start) =~= body);
    Some(v)
}

} // verus!
