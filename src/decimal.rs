use vstd::prelude::*;

verus! {

/// The most fraction digits a price carries.
pub const MAX_SCALE: u32 = 18;

/// Magnitudes of price units stay below this bound (`10^18`), so that every
/// arithmetic on two prices fits in `i128`.
pub const UNITS_LIMIT: u64 = 1_000_000_000_000_000_000;

/// An exact decimal amount: `units / 10^scale`.
#[derive(Clone, Copy, Debug, PartialEq, Eq, Structural)]
pub struct Decimal {
    pub units: i64,
    pub scale: u32,
}

impl Decimal {
    /// The scale and the magnitude of the units are within the library's bounds.
    pub open spec fn wf(self) -> bool {
        &&& self.scale <= MAX_SCALE
        &&& -(UNITS_LIMIT as int) < self.units < UNITS_LIMIT
    }
}

pub open spec fn is_digit(c: char) -> bool {
    '0' <= c && c <= '9'
}

pub open spec fn digit_value(c: char) -> int {
    (c as int) - ('0' as int)
}

pub open spec fn all_digits(s: Seq<char>) -> bool {
    forall|i: int| 0 <= i < s.len() ==> is_digit(#[trigger] s[i])
}

/// The number that a string of decimal digits writes.
pub open spec fn digits_value(s: Seq<char>) -> int
    decreases s.len(),
{
    if s.len() == 0 {
        0
    } else {
        10 * digits_value(s.drop_last()) + digit_value(s.last())
    }
}

/// `body` is digits around a single `.` at index `k`.
pub open spec fn dotted_at(body: Seq<char>, k: int) -> bool {
    &&& 0 <= k < body.len()
    &&& body[k] == '.'
    &&& all_digits(body.subrange(0, k))
    &&& all_digits(body.subrange(k + 1, body.len() as int))
}

/// The length of a leading `+` or `-`.
pub open spec fn sign_len(s: Seq<char>) -> int {
    if s.len() > 0 && (s[0] == '+' || s[0] == '-') {
        1
    } else {
        0
    }
}

/// The decimal of the given sign, magnitude and scale, if it is within bounds.
pub open spec fn decimal_of(negative: bool, mag: int, scale: int) -> Option<Decimal> {
    if mag < pow10(18) && scale <= MAX_SCALE {
        Some(Decimal { units: (if negative { -mag } else { mag }) as i64, scale: scale as u32 })
    } else {
        None
    }
}

/// The decimal that `s` writes: an optional sign, then digits with at most one
/// `.` among them and at least one digit. No exponent, no separators.
pub open spec fn number_of(s: Seq<char>) -> Option<Decimal> {
    let body = s.subrange(sign_len(s), s.len() as int);
    let negative = sign_len(s) == 1 && s[0] == '-';
    if body.len() >= 1 && all_digits(body) {
        decimal_of(negative, digits_value(body), 0)
    } else if body.len() >= 2 && exists|k: int| dotted_at(body, k) {
        let k = choose|k: int| dotted_at(body, k);
        decimal_of(
            negative,
            digits_value(body.subrange(0, k) + body.subrange(k + 1, body.len() as int)),
            body.len() - k - 1,
        )
    } else {
        None
    }
}

/// The price that an attribute value such as `$19.99` gives: a `$`, then a number.
pub open spec fn price_of(text: Seq<char>) -> Option<Decimal> {
    if text.len() > 0 && text[0] == '$' {
        number_of(text.drop_first())
    } else {
        None
    }
}

/// Reads a target price written as `$` followed by a plain decimal number
/// (`$600`, `$19.99`, `$-5`); any other text gives `None`.
pub fn parse_price(text: &str) -> (r: Option<Decimal>)
    ensures
        r == price_of(text@),
        r matches Some(d) ==> d.wf(),
{
    let n = text.unicode_len();
    if n == 0 || text.get_char(0) != '$' {
        return None;
    }
    proof {
        assert(text@.subrange(1, n as int) =~= text@.drop_first());
    }
    parse_number_from(text, 1)
}

/// Reads a plain decimal number such as `1000`, `19.99` or `-5`; any other text
/// gives `None`.
pub fn parse_decimal(text: &str) -> (r: Option<Decimal>)
    ensures
        r == number_of(text@),
        r matches Some(d) ==> d.wf(),
{
    proof {
        assert(text@.subrange(0, text@.len() as int) =~= text@);
    }
    parse_number_from(text, 0)
}

/// Reads the number written in `text` from character `from` on.
#[verifier::rlimit(50)]
fn parse_number_from(text: &str, from: usize) -> (r: Option<Decimal>)
    requires
        from <= text@.len(),
    ensures
        r == number_of(text@.subrange(from as int, text@.len() as int)),
        r matches Some(d) ==> d.wf(),
{
    let n = text.unicode_len();
    let ghost s = text@.subrange(from as int, n as int);
    let mut start: usize = from;
    let mut negative = false;
    if n > from {
        let c = text.get_char(from);
        if c == '+' || c == '-' {
            start = from + 1;
            negative = c == '-';
        }
    }
    let ghost body = text@.subrange(start as int, n as int);
    proof {
        assert(body =~= s.subrange(sign_len(s), s.len() as int));
        assert(negative == (sign_len(s) == 1 && s[0] == '-'));
    }
    let mut mag: u64 = 0;
    let mut seen_dot = false;
    let mut dot: usize = 0;
    let mut i: usize = start;
    while i < n
        invariant
            from <= start <= i <= n,
            n == text@.len(),
            body == text@.subrange(start as int, n as int),
            s == text@.subrange(from as int, n as int),
            body == s.subrange(sign_len(s), s.len() as int),
            negative == (sign_len(s) == 1 && s[0] == '-'),
            mag < UNITS_LIMIT,
            !seen_dot ==> all_digits(body.subrange(0, i - start)) && mag == digits_value(
                body.subrange(0, i - start),
            ),
            seen_dot ==> start <= dot < i && dotted_at(body.subrange(0, i - start), dot - start)
                && mag == digits_value(
                body.subrange(0, dot - start) + body.subrange(dot - start + 1, i - start),
            ),
        decreases n - i,
    {
        let c = text.get_char(i);
        let ghost j = i - start;
        if '0' <= c && c <= '9' {
            let d = (c as u32 - '0' as u32) as u64;
            let next = mag * 10 + d;
            proof {
                if !seen_dot {
                    let p = body.subrange(0, j + 1);
                    assert(p.drop_last() =~= body.subrange(0, j));
                    assert(all_digits(p));
                    assert(next == digits_value(p));
                } else {
                    let a = body.subrange(0, dot - start);
                    let p = a + body.subrange(dot - start + 1, j + 1);
                    assert(p.drop_last() =~= a + body.subrange(dot - start + 1, j));
                    assert(next == digits_value(p));
                }
            }
            if next >= UNITS_LIMIT {
                proof {
                    lemma_pow10_18();
                    lemma_too_many_digits(body, j, seen_dot, dot - start);
                }
                return None;
            }
            mag = next;
            proof {
                if !seen_dot {
                    assert(all_digits(body.subrange(0, j + 1)));
                } else {
                    let q = body.subrange(0, j + 1);
                    let k = dot - start;
                    assert(q.subrange(0, k) =~= body.subrange(0, j).subrange(0, k));
                    assert(q.subrange(k + 1, q.len() as int) =~= body.subrange(0, j).subrange(
                        k + 1,
                        j,
                    ).push(c));
                    assert(all_digits(q.subrange(k + 1, q.len() as int)));
                    assert(q.subrange(0, k) =~= body.subrange(0, k));
                }
            }
        } else if c == '.' && !seen_dot {
            seen_dot = true;
            dot = i;
            proof {
                let q = body.subrange(0, j + 1);
                assert(q.subrange(0, j) =~= body.subrange(0, j));
                assert(q.subrange(j + 1, j + 1) =~= Seq::<char>::empty());
                assert(dotted_at(q, j));
                assert(body.subrange(j + 1, j + 1) =~= Seq::<char>::empty());
                assert(body.subrange(0, j) + body.subrange(j + 1, j + 1) =~= body.subrange(0, j));
            }
        } else {
            proof {
                lemma_bad_char(body, j, seen_dot, dot - start);
            }
            return None;
        }
        i = i + 1;
    }
    proof {
        assert(body.subrange(0, n - start) =~= body);
    }
    let digits = if seen_dot { n - start - 1 } else { n - start };
    if digits == 0 {
        proof {
            if seen_dot {
                assert(body.len() == 1);
                assert(!is_digit(body[0]));
            }
        }
        return None;
    }
    let scale = if seen_dot { n - dot - 1 } else { 0 };
    if scale > MAX_SCALE as usize {
        proof {
            lemma_dot_unique(body, dot - start);
        }
        return None;
    }
    proof {
        if seen_dot {
            lemma_dot_unique(body, dot - start);
            assert(!all_digits(body)) by {
                assert(!is_digit(body[dot - start]));
            }
        }
        lemma_pow10_18();
    }
    let units: i64 = if negative { -(mag as i64) } else { mag as i64 };
    Some(Decimal { units, scale: scale as u32 })
}

/// Once the digits read so far write `10^18` or more, no reading of the whole
/// body stays within bounds.
proof fn lemma_too_many_digits(body: Seq<char>, j: int, seen_dot: bool, k: int)
    requires
        0 <= j < body.len(),
        is_digit(body[j]),
        !seen_dot ==> all_digits(body.subrange(0, j + 1)) && digits_value(body.subrange(0, j + 1))
            >= pow10(18),
        seen_dot ==> 0 <= k < j && dotted_at(body.subrange(0, j), k) && digits_value(
            body.subrange(0, k) + body.subrange(k + 1, j + 1),
        ) >= pow10(18),
    ensures
        all_digits(body) ==> digits_value(body) >= pow10(18),
        forall|m: int|
            dotted_at(body, m) ==> digits_value(
                body.subrange(0, m) + body.subrange(m + 1, body.len() as int),
            ) >= pow10(18),
{
    if all_digits(body) {
        if seen_dot {
            assert(body.subrange(0, j)[k] == body[k]);
        }
        lemma_digits_value_prefix(body, j + 1);
    }
    assert forall|m: int|
        dotted_at(body, m) implies digits_value(
        body.subrange(0, m) + body.subrange(m + 1, body.len() as int),
    ) >= pow10(18) by {
        let whole = body.subrange(0, m) + body.subrange(m + 1, body.len() as int);
        assert forall|x: int| 0 <= x < whole.len() implies is_digit(#[trigger] whole[x]) by {
            if x < m {
                assert(body.subrange(0, m)[x] == whole[x]);
            } else {
                assert(body.subrange(m + 1, body.len() as int)[x - m] == whole[x]);
            }
        }
        if !seen_dot {
            if m <= j {
                assert(body.subrange(0, j + 1)[m] == body[m]);
            }
            assert(whole.subrange(0, j + 1) =~= body.subrange(0, j + 1));
            lemma_digits_value_prefix(whole, j + 1);
        } else {
            assert(body.subrange(0, j)[k] == body[k]);
            if m < k {
                assert(body.subrange(m + 1, body.len() as int)[k - m - 1] == body[k]);
            } else if m > k {
                assert(body.subrange(0, m)[k] == body[k]);
            }
            assert(m == k);
            assert(whole.subrange(0, j) =~= body.subrange(0, k) + body.subrange(k + 1, j + 1));
            lemma_digits_value_prefix(whole, j);
        }
    }
}

/// Where `body` has a `.` at `k` among digits, no other index is such a `.`.
proof fn lemma_dot_unique(body: Seq<char>, k: int)
    requires
        dotted_at(body, k),
    ensures
        forall|m: int| dotted_at(body, m) ==> m == k,
{
    assert forall|m: int| dotted_at(body, m) implies m == k by {
        if m < k {
            assert(body.subrange(0, k)[m] == body[m]);
        } else if m > k {
            assert(body.subrange(k + 1, body.len() as int)[m - k - 1] == body[m]);
        }
    }
}

/// A character that is neither a digit nor the first `.` leaves the body unreadable.
proof fn lemma_bad_char(body: Seq<char>, j: int, seen_dot: bool, k: int)
    requires
        0 <= j < body.len(),
        !is_digit(body[j]),
        seen_dot ==> 0 <= k < j && body[k] == '.',
        !seen_dot ==> body[j] != '.' && all_digits(body.subrange(0, j)),
    ensures
        !all_digits(body),
        forall|m: int| !dotted_at(body, m),
{
    assert forall|m: int| !dotted_at(body, m) by {
        if dotted_at(body, m) {
            if m < j {
                assert(body.subrange(m + 1, body.len() as int)[j - m - 1] == body[j]);
                if seen_dot && k != m {
                    if k < m {
                        assert(body.subrange(0, m)[k] == body[k]);
                    } else {
                        assert(body.subrange(m + 1, body.len() as int)[k - m - 1] == body[k]);
                    }
                }
            } else if m > j {
                assert(body.subrange(0, m)[j] == body[j]);
            } else if !seen_dot {
            } else {
                assert(body.subrange(0, m)[k] == body[k]);
            }
        }
    }
}

/// The value of digits grows as digits are appended.
pub proof fn lemma_digits_value_append(p: Seq<char>, q: Seq<char>)
    requires
        all_digits(p + q),
    ensures
        digits_value(p + q) >= digits_value(p) >= 0,
    decreases q.len(),
{
    if q.len() == 0 {
        assert(p + q =~= p);
        lemma_digits_value_nonneg(p);
    } else {
        assert((p + q).drop_last() =~= p + q.drop_last());
        assert(is_digit((p + q)[(p + q).len() - 1]));
        assert(all_digits(p + q.drop_last()));
        lemma_digits_value_append(p, q.drop_last());
    }
}

/// A string of digits writes a non-negative number.
pub proof fn lemma_digits_value_nonneg(p: Seq<char>)
    requires
        all_digits(p),
    ensures
        digits_value(p) >= 0,
    decreases p.len(),
{
    if p.len() > 0 {
        assert(is_digit(p[p.len() - 1]));
        assert(all_digits(p.drop_last()));
        lemma_digits_value_nonneg(p.drop_last());
    }
}

/// A prefix of a string of digits writes at most what the whole writes.
pub proof fn lemma_digits_value_prefix(x: Seq<char>, m: int)
    requires
        all_digits(x),
        0 <= m <= x.len(),
    ensures
        digits_value(x) >= digits_value(x.subrange(0, m)) >= 0,
{
    assert(x =~= x.subrange(0, m) + x.subrange(m, x.len() as int));
    lemma_digits_value_append(x.subrange(0, m), x.subrange(m, x.len() as int));
}

/// `10` raised to the power `n`.
pub open spec fn pow10(n: nat) -> int
    decreases n,
{
    if n == 0 {
        1
    } else {
        10 * pow10((n - 1) as nat)
    }
}

/// Computes `10^n` for the exponents a price can carry.
pub fn pow10_exec(n: u32) -> (r: i128)
    requires
        n <= 18,
    ensures
        r == pow10(n as nat),
{
    let mut r: i128 = 1;
    let mut i: u32 = 0;
    while i < n
        invariant
            i <= n <= 18,
            r == pow10(i as nat),
        decreases n - i,
    {
        proof {
            lemma_pow10_le(i as nat + 1, 18);
            lemma_pow10_18();
        }
        r = r * 10;
        i = i + 1;
    }
    r
}

/// The largest power of ten that a price scale reaches.
pub proof fn lemma_pow10_18()
    ensures
        pow10(18) == 1_000_000_000_000_000_000,
{
    reveal_with_fuel(pow10, 19);
}

/// Powers of ten grow with the exponent.
pub proof fn lemma_pow10_le(a: nat, b: nat)
    requires
        a <= b,
    ensures
        1 <= pow10(a) <= pow10(b),
    decreases b,
{
    if b > 0 {
        if a < b {
            lemma_pow10_le(a, (b - 1) as nat);
        }
        lemma_pow10_le(0, (b - 1) as nat);
    }
}

} // verus!
