use vstd::prelude::*;
use crate::text::{piece_len, lemma_piece_scan};

verus! {

pub open spec fn is_digit(c: char) -> bool {
    '0' <= c && c <= '9'
}

pub open spec fn all_digits(s: Seq<char>) -> bool {
    forall|i: int| 0 <= i < s.len() ==> is_digit(#[trigger] s[i])
}

/// Decimal value of a sequence of digits.
pub open spec fn digits_value(s: Seq<char>) -> int
    decreases s.len(),
{
    if s.len() == 0 {
        0
    } else {
        digits_value(s.drop_last()) * 10 + (s.last() as int - '0' as int)
    }
}

/// The digits after an optional leading `+`.
pub open spec fn unsigned_digits(s: Seq<char>) -> Seq<char> {
    if s.len() > 0 && s[0] == '+' { s.drop_first() } else { s }
}

/// Value of a text as `u64::from_str` reads it: an optional `+`, then at least
/// one decimal digit, the whole within `u64`.
pub open spec fn u64_text_value(s: Seq<char>) -> Option<u64> {
    let d = unsigned_digits(s);
    if d.len() > 0 && all_digits(d) && digits_value(d) <= u64::MAX {
        Some(digits_value(d) as u64)
    } else {
        None
    }
}

/// Value of a text as `i64::from_str` reads it: an optional `+` or `-`, then at
/// least one decimal digit, the whole within `i64`.
pub open spec fn i64_text_value(s: Seq<char>) -> Option<i64> {
    let negative = s.len() > 0 && s[0] == '-';
    let d = if s.len() > 0 && (s[0] == '+' || s[0] == '-') { s.drop_first() } else { s };
    let v = if negative { -digits_value(d) } else { digits_value(d) };
    if d.len() > 0 && all_digits(d) && i64::MIN <= v <= i64::MAX {
        Some(v as i64)
    } else {
        None
    }
}

proof fn lemma_digits_value_push(s: Seq<char>, c: char)
    ensures
        digits_value(s.push(c)) == digits_value(s) * 10 + (c as int - '0' as int),
{
    assert(s.push(c).drop_last() =~= s);
}

proof fn lemma_digits_value_nonneg(s: Seq<char>)
    requires
        all_digits(s),
    ensures
        digits_value(s) >= 0,
    decreases s.len(),
{
    if s.len() > 0 {
        assert(all_digits(s.drop_last()));
        lemma_digits_value_nonneg(s.drop_last());
    }
}

/// Scans digits `s[start..]`, computing their value up to `limit`.
/// Returns `None` when a character is no digit or the value passes `limit`.
fn digits_value_up_to(s: &Vec<char>, start: usize, limit: u64) -> (r: Option<u64>)
    requires
        start <= s@.len(),
        limit >= 9,
    ensures
        ({
            let d = s@.skip(start as int);
            match r {
                Some(v) => all_digits(d) && digits_value(d) <= limit && v == digits_value(d),
                None => !all_digits(d) || digits_value(d) > limit,
            }
        }),
{
    let ghost d = s@.skip(start as int);
    let mut v: u64 = 0;
    let mut overflow = false;
    let mut i = start;
    assert(d.take(0) =~= seq![]);
    while i < s.len()
        invariant
            start <= i <= s@.len(),
            d == s@.skip(start as int),
            all_digits(d.take(i - start)),
            limit >= 9,
            !overflow ==> v == digits_value(d.take(i - start)) && v <= limit,
            overflow ==> digits_value(d.take(i - start)) > limit,
        decreases s@.len() - i,
    {
        let c = s[i];
        if !('0' <= c && c <= '9') {
            assert(d[i - start] == c);
            return None;
        }
        let digit = (c as u32 - '0' as u32) as u64;
        proof {
            assert(d.take(i - start + 1) =~= d.take(i - start).push(c));
            lemma_digits_value_push(d.take(i - start), c);
            lemma_digits_value_nonneg(d.take(i - start));
            assert(all_digits(d.take(i - start + 1)));
        }
        if !overflow {
            if v > (limit - digit) / 10 {
                overflow = true;
            } else {
                v = v * 10 + digit;
            }
        }
        i = i + 1;
    }
    assert(d.take(i - start) =~= d);
    if overflow {
        None
    } else {
        Some(v)
    }
}

/// Reads an unsigned decimal number as `u64::from_str` does.
pub fn parse_u64(s: &Vec<char>) -> (r: Option<u64>)
    ensures
        r == u64_text_value(s@),
{
    let start: usize = if s.len() > 0 && s[0] == '+' { 1 } else { 0 };
    assert(unsigned_digits(s@) =~= s@.skip(start as int));
    if start >= s.len() {
        return None;
    }
    digits_value_up_to(s, start, u64::MAX)
}

/// Reads a signed decimal number as `i64::from_str` does.
pub fn parse_i64(s: &Vec<char>) -> (r: Option<i64>)
    ensures
        r == i64_text_value(s@),
{
    let negative = s.len() > 0 && s[0] == '-';
    let start: usize = if s.len() > 0 && (s[0] == '+' || s[0] == '-') { 1 } else { 0 };
    let ghost d = if s@.len() > 0 && (s@[0] == '+' || s@[0] == '-') { s@.drop_first() } else { s@ };
    assert(d =~= s@.skip(start as int));
    if start >= s.len() {
        return None;
    }
    let limit: u64 = if negative { 9223372036854775808 } else { 9223372036854775807 };
    match digits_value_up_to(s, start, limit) {
        None => None,
        Some(m) => {
            if negative {
                if m == 9223372036854775808 {
                    Some(i64::MIN)
                } else {
                    Some(-(m as i64))
                }
            } else {
                Some(m as i64)
            }
        },
    }
}

/// The letter in lower case.
pub open spec fn lower(c: char) -> char {
    if 'A' <= c && c <= 'Z' { ((c as u32) + 32) as char } else { c }
}

/// The text after an optional leading sign.
pub open spec fn without_sign(s: Seq<char>) -> Seq<char> {
    if s.len() > 0 && (s[0] == '+' || s[0] == '-') { s.drop_first() } else { s }
}

/// `t` reads as `word` ignoring case.
pub open spec fn matches_word(t: Seq<char>, word: Seq<char>) -> bool {
    t.len() == word.len() && forall|i: int| 0 <= i < t.len() ==> lower(#[trigger] t[i]) == word[i]
}

/// Mantissa of a float literal: digits with at most one `.`, at least one digit.
pub open spec fn mantissa_ok(m: Seq<char>) -> bool {
    let k = piece_len(m, '.');
    if k >= m.len() {
        m.len() >= 1 && all_digits(m)
    } else {
        all_digits(m.take(k as int)) && all_digits(m.skip(k as int + 1)) && m.len() >= 2
    }
}

/// Number of leading characters before the first `e` or `E`.
pub open spec fn exp_pos(t: Seq<char>) -> nat
    decreases t.len(),
{
    if t.len() == 0 || lower(t[0]) == 'e' {
        0
    } else {
        1 + exp_pos(t.drop_first())
    }
}

/// Exponent of a float literal: `e`, an optional sign, at least one digit.
pub open spec fn exponent_ok(x: Seq<char>) -> bool {
    x.len() >= 1 && lower(x[0]) == 'e' && without_sign(x.drop_first()).len() >= 1 && all_digits(
        without_sign(x.drop_first()),
    )
}

/// Texts that `f64::from_str` accepts, by the grammar its documentation gives
/// (letters in any case): an optional sign, then `inf`, `infinity`, `nan`, or
/// a decimal number with an optional exponent.
pub open spec fn float_text_ok(s: Seq<char>) -> bool {
    let t = without_sign(s);
    let k = exp_pos(t);
    ||| matches_word(t, seq!['i', 'n', 'f'])
    ||| matches_word(t, seq!['i', 'n', 'f', 'i', 'n', 'i', 't', 'y'])
    ||| matches_word(t, seq!['n', 'a', 'n'])
    ||| (mantissa_ok(t.take(k as int)) && (k >= t.len() || exponent_ok(t.skip(k as int))))
}

} // verus!

verus! {

fn lower_char(c: char) -> (r: char)
    ensures
        r == lower(c),
{
    if 'A' <= c && c <= 'Z' {
        ((c as u32) + 32) as u8 as char
    } else {
        c
    }
}

fn all_digits_in(s: &Vec<char>, lo: usize, hi: usize) -> (r: bool)
    requires
        lo <= hi <= s@.len(),
    ensures
        r == all_digits(s@.subrange(lo as int, hi as int)),
{
    let mut i = lo;
    while i < hi
        invariant
            lo <= i <= hi <= s@.len(),
            forall|k: int| lo <= k < i ==> is_digit(#[trigger] s@[k]),
        decreases hi - i,
    {
        if !('0' <= s[i] && s[i] <= '9') {
            assert(s@.subrange(lo as int, hi as int)[i - lo] == s@[i as int]);
            return false;
        }
        i = i + 1;
    }
    assert forall|k: int| 0 <= k < hi - lo implies is_digit(#[trigger] s@.subrange(lo as int, hi as int)[k]) by {
        assert(s@.subrange(lo as int, hi as int)[k] == s@[lo + k]);
    }
    true
}

fn word_matches_at(s: &Vec<char>, start: usize, word: &Vec<char>) -> (r: bool)
    requires
        start <= s@.len(),
    ensures
        r == matches_word(s@.skip(start as int), word@),
{
    let n = s.len();
    if n - start != word.len() {
        return false;
    }
    let mut i: usize = 0;
    while i < word.len()
        invariant
            n == s@.len(),
            start <= s@.len(),
            s@.len() - start == word@.len(),
            i <= word@.len(),
            forall|k: int| 0 <= k < i ==> lower(#[trigger] s@[start + k]) == word@[k],
        decreases word@.len() - i,
    {
        if lower_char(s[start + i]) != word[i] {
            assert(s@.skip(start as int)[i as int] == s@[start + i]);
            return false;
        }
        i = i + 1;
    }
    assert forall|k: int| 0 <= k < s@.skip(start as int).len() implies lower(#[trigger] s@.skip(start as int)[k])
        == word@[k] by {
        assert(s@.skip(start as int)[k] == s@[start + k]);
    }
    true
}

proof fn lemma_exp_scan(s: Seq<char>, i: int, j: int)
    requires
        0 <= i <= j <= s.len(),
        forall|k: int| i <= k < j ==> lower(#[trigger] s[k]) != 'e',
        j == s.len() || lower(s[j]) == 'e',
    ensures
        exp_pos(s.skip(i)) == j - i,
    decreases j - i,
{
    if i < j {
        lemma_exp_scan(s, i + 1, j);
        assert(s.skip(i).drop_first() =~= s.skip(i + 1));
    } else {
        if j < s.len() {
            assert(s.skip(i)[0] == s[j]);
        }
    }
}

fn mantissa_ok_at(s: &Vec<char>, start: usize, p: usize) -> (r: bool)
    requires
        start <= p <= s@.len(),
    ensures
        r == mantissa_ok(s@.subrange(start as int, p as int)),
{
    let ghost m = s@.subrange(start as int, p as int);
    let mut q = start;
    while q < p && s[q] != '.'
        invariant
            start <= q <= p <= s@.len(),
            forall|k: int| start <= k < q ==> #[trigger] s@[k] != '.',
        decreases p - q,
    {
        q = q + 1;
    }
    proof {
        lemma_piece_scan(m, '.', 0, q - start);
        assert(m.skip(0) =~= m);
        assert(m.take(q - start) =~= s@.subrange(start as int, q as int));
        if q < p {
            assert(m.skip(q - start + 1) =~= s@.subrange(q + 1, p as int));
        }
    }
    if q >= p {
        p - start >= 1 && all_digits_in(s, start, p)
    } else {
        all_digits_in(s, start, q) && all_digits_in(s, q + 1, p) && p - start >= 2
    }
}

fn exponent_ok_at(s: &Vec<char>, p: usize) -> (r: bool)
    requires
        p < s@.len(),
        lower(s@[p as int]) == 'e',
    ensures
        r == exponent_ok(s@.skip(p as int)),
{
    let n = s.len();
    let exp_digits: usize = if p + 1 < n && (s[p + 1] == '+' || s[p + 1] == '-') { p + 2 } else { p + 1 };
    proof {
        let x = s@.skip(p as int);
        assert(without_sign(x.drop_first()) =~= s@.subrange(exp_digits as int, n as int));
    }
    exp_digits < n && all_digits_in(s, exp_digits, n)
}

/// Tells whether `f64::from_str` accepts the text.
pub fn is_float_text(s: &Vec<char>) -> (r: bool)
    ensures
        r == float_text_ok(s@),
{
    let n = s.len();
    let start: usize = if n > 0 && (s[0] == '+' || s[0] == '-') { 1 } else { 0 };
    let ghost t = without_sign(s@);
    assert(t =~= s@.skip(start as int));
    let inf_word = vec!['i', 'n', 'f'];
    let infinity_word = vec!['i', 'n', 'f', 'i', 'n', 'i', 't', 'y'];
    let nan_word = vec!['n', 'a', 'n'];
    let special = word_matches_at(s, start, &inf_word) || word_matches_at(s, start, &infinity_word)
        || word_matches_at(s, start, &nan_word);
    if special {
        return true;
    }
    let mut p = start;
    while p < n && lower_char(s[p]) != 'e'
        invariant
            start <= p <= n,
            n == s@.len(),
            forall|k: int| start <= k < p ==> lower(#[trigger] s@[k]) != 'e',
        decreases n - p,
    {
        p = p + 1;
    }
    proof {
        lemma_exp_scan(s@, start as int, p as int);
        assert(t.take(p - start) =~= s@.subrange(start as int, p as int));
        if p < n {
            assert(t.skip(p - start) =~= s@.skip(p as int));
        }
    }
    if !mantissa_ok_at(s, start, p) {
        return false;
    }
    if p >= n {
        return true;
    }
    exponent_ok_at(s, p)
}

} // verus!

verus! {

/// `10^n`.
pub open spec fn pow10(n: nat) -> int
    decreases n,
{
    if n == 0 {
        1
    } else {
        10 * pow10((n - 1) as nat)
    }
}

/// The decimal digits of `2^1024 - 2^970`, half a unit in the last place above `f64::MAX`: the
/// least magnitude that a correctly rounding reader of `f64` takes for infinity (the tie rounds
/// to the even neighbour, which is `2^1024`).
pub open spec fn f64_overflow_digits() -> Seq<char> {
    "179769313486231580793728971405303415079934132710037826936173778980444968292764750946649017977587207096330286416692887910946555547851940402630657488671505820681908902000708383676273854845817711531764475730270069855571366959622842914819860834936475292719074168444365510704342711559699508093042880177904174497792"@
}

/// The decimal number a float text writes, as its mantissa digits (the point left out) and the
/// power of ten they are scaled by.
pub open spec fn float_parts(s: Seq<char>) -> (Seq<char>, int) {
    let t = without_sign(s);
    let k = exp_pos(t);
    let m = t.take(k as int);
    let dp = piece_len(m, '.');
    let digits = if dp >= m.len() {
        m
    } else {
        m.take(dp as int) + m.skip(dp as int + 1)
    };
    let frac = if dp >= m.len() {
        0
    } else {
        m.len() - dp - 1
    };
    (digits, float_exp(s) - frac)
}

/// The exponent a float text writes after `e` (zero without one).
pub open spec fn float_exp(s: Seq<char>) -> int {
    let t = without_sign(s);
    let k = exp_pos(t);
    if k >= t.len() {
        0
    } else {
        let x = t.skip(k as int).drop_first();
        if x.len() > 0 && x[0] == '-' {
            -digits_value(x.drop_first())
        } else {
            digits_value(without_sign(x))
        }
    }
}

/// `d * 10^e` lies below `2^1024 - 2^970`.
pub open spec fn below_f64_overflow(d: int, e: int) -> bool {
    let t = digits_value(f64_overflow_digits());
    if e >= 0 {
        d * pow10(e as nat) < t
    } else {
        d < t * pow10((-e) as nat)
    }
}

/// `f64::from_str` reads the text (one that it accepts) as a finite number: it names no infinity
/// or NaN, and its magnitude lies below the least one that rounds to infinity.
pub open spec fn float_text_finite(s: Seq<char>) -> bool {
    let t = without_sign(s);
    &&& !matches_word(t, seq!['i', 'n', 'f'])
    &&& !matches_word(t, seq!['i', 'n', 'f', 'i', 'n', 'i', 't', 'y'])
    &&& !matches_word(t, seq!['n', 'a', 'n'])
    &&& below_f64_overflow(digits_value(float_parts(s).0), float_parts(s).1)
}

proof fn lemma_pow10_positive(n: nat)
    ensures
        pow10(n) >= 1,
    decreases n,
{
    if n > 0 {
        lemma_pow10_positive((n - 1) as nat);
    }
}

proof fn lemma_pow10_adds(a: nat, b: nat)
    ensures
        pow10(a + b) == pow10(a) * pow10(b),
    decreases b,
{
    if b > 0 {
        lemma_pow10_adds(a, (b - 1) as nat);
        assert(pow10(a + b) == 10 * pow10((a + b - 1) as nat));
        assert(pow10(a) * pow10(b) == pow10(a) * (10 * pow10((b - 1) as nat)));
        assert(pow10(a) * (10 * pow10((b - 1) as nat)) == 10 * (pow10(a) * pow10((b - 1) as nat))) by (nonlinear_arith);
    }
}

proof fn lemma_pow10_le(a: nat, b: nat)
    requires
        a <= b,
    ensures
        pow10(a) <= pow10(b),
{
    lemma_pow10_adds(a, (b - a) as nat);
    lemma_pow10_positive(a);
    lemma_pow10_positive((b - a) as nat);
    assert(pow10(a) * pow10((b - a) as nat) >= pow10(a)) by (nonlinear_arith)
        requires
            pow10(a) >= 1,
            pow10((b - a) as nat) >= 1,
    ;
    assert(a + (b - a) as nat == b);
}

/// The value of digits written after others.
proof fn lemma_digits_value_concat(a: Seq<char>, b: Seq<char>)
    ensures
        digits_value(a + b) == digits_value(a) * pow10(b.len()) + digits_value(b),
    decreases b.len(),
{
    if b.len() > 0 {
        lemma_digits_value_concat(a, b.drop_last());
        assert((a + b).drop_last() =~= a + b.drop_last());
        assert((a + b).last() == b.last());
        let p = pow10((b.len() - 1) as nat);
        assert(pow10(b.len()) == 10 * p);
        assert((digits_value(a) * p + digits_value(b.drop_last())) * 10 + (b.last() as int - '0' as int) == digits_value(
            a,
        ) * (10 * p) + (digits_value(b.drop_last()) * 10 + (b.last() as int - '0' as int))) by (nonlinear_arith);
    }
}

/// A run of zeros is worth zero.
proof fn lemma_digits_value_zeros(s: Seq<char>)
    requires
        forall|i: int| 0 <= i < s.len() ==> #[trigger] s[i] == '0',
    ensures
        digits_value(s) == 0,
    decreases s.len(),
{
    if s.len() > 0 {
        lemma_digits_value_zeros(s.drop_last());
    }
}

/// `n` digits are worth less than `10^n`, and at least `10^(n-1)` where the first is not zero.
proof fn lemma_digits_value_bounds(s: Seq<char>)
    requires
        all_digits(s),
    ensures
        0 <= digits_value(s) < pow10(s.len()),
        s.len() > 0 && s[0] != '0' ==> digits_value(s) >= pow10((s.len() - 1) as nat),
    decreases s.len(),
{
    if s.len() > 0 {
        let r = s.drop_last();
        assert(all_digits(r));
        lemma_digits_value_bounds(r);
        let c = s.last() as int - '0' as int;
        assert(0 <= c <= 9);
        assert(digits_value(s) < pow10(s.len())) by (nonlinear_arith)
            requires
                digits_value(s) == digits_value(r) * 10 + c,
                digits_value(r) < pow10(r.len()),
                pow10(s.len()) == 10 * pow10(r.len()),
                c <= 9,
        ;
        if s[0] != '0' {
            if r.len() > 0 {
                assert(r[0] == s[0]);
                lemma_pow10_positive((r.len() - 1) as nat);
                assert(digits_value(s) >= pow10((s.len() - 1) as nat)) by (nonlinear_arith)
                    requires
                        digits_value(s) == digits_value(r) * 10 + c,
                        digits_value(r) >= pow10((r.len() - 1) as nat),
                        pow10((s.len() - 1) as nat) == 10 * pow10((r.len() - 1) as nat),
                        c >= 0,
                ;
            } else {
                assert(s.last() == s[0]);
            }
        }
    }
}

/// Digit sequences of one length are ordered as their first difference is.
proof fn lemma_digits_lex_less(a: Seq<char>, b: Seq<char>, i: int)
    requires
        a.len() == b.len(),
        all_digits(a),
        all_digits(b),
        0 <= i < a.len(),
        a.take(i) == b.take(i),
        a[i] < b[i],
    ensures
        digits_value(a) < digits_value(b),
{
    let n = a.len();
    let ra = a.skip(i + 1);
    let rb = b.skip(i + 1);
    assert(a =~= a.take(i + 1) + ra);
    assert(b =~= b.take(i + 1) + rb);
    lemma_digits_value_concat(a.take(i + 1), ra);
    lemma_digits_value_concat(b.take(i + 1), rb);
    assert(a.take(i + 1).drop_last() =~= a.take(i));
    assert(b.take(i + 1).drop_last() =~= b.take(i));
    assert(all_digits(ra));
    assert(all_digits(rb));
    lemma_digits_value_bounds(ra);
    lemma_digits_value_bounds(rb);
    let p = pow10(ra.len());
    let c = digits_value(a.take(i));
    let x = a[i] as int - '0' as int;
    let y = b[i] as int - '0' as int;
    assert(a.take(i + 1).last() == a[i]);
    assert(b.take(i + 1).last() == b[i]);
    assert(digits_value(a.take(i + 1)) == c * 10 + x);
    assert(digits_value(b.take(i + 1)) == c * 10 + y);
    assert(rb.len() == ra.len());
    assert((c * 10 + x) * p + digits_value(ra) < (c * 10 + y) * p + digits_value(rb)) by (nonlinear_arith)
        requires
            x < y,
            0 <= digits_value(ra) < p,
            0 <= digits_value(rb),
    ;
}

} // verus!

verus! {

/// The value of the digits `s[start..]`, or `None` where it passes `2^100`.
fn digits_value_capped(s: &Vec<char>, start: usize) -> (r: Option<u128>)
    requires
        start <= s@.len(),
        all_digits(s@.skip(start as int)),
    ensures
        match r {
            Some(v) => v == digits_value(s@.skip(start as int)) && v <= 0x10_0000_0000_0000_0000_0000_0000,
            None => digits_value(s@.skip(start as int)) > 0x10_0000_0000_0000_0000_0000_0000,
        },
{
    let ghost d = s@.skip(start as int);
    let limit: u128 = 0x10_0000_0000_0000_0000_0000_0000;
    let mut v: u128 = 0;
    let mut over = false;
    let mut i = start;
    assert(d.take(0) =~= seq![]);
    while i < s.len()
        invariant
            start <= i <= s@.len(),
            d == s@.skip(start as int),
            all_digits(d),
            limit == 0x10_0000_0000_0000_0000_0000_0000,
            !over ==> v == digits_value(d.take(i - start)) && v <= limit,
            over ==> digits_value(d.take(i - start)) > limit,
        decreases s@.len() - i,
    {
        let c = s[i];
        assert(d[i - start] == c);
        assert(is_digit(c));
        let digit = (c as u32 - '0' as u32) as u128;
        assert(digit <= 9);
        proof {
            assert(d.take(i - start + 1) =~= d.take(i - start).push(c));
            lemma_digits_value_push(d.take(i - start), c);
            assert(all_digits(d.take(i - start)));
            lemma_digits_value_nonneg(d.take(i - start));
        }
        if !over {
            if v > (limit - digit) / 10 {
                over = true;
            } else {
                v = v * 10 + digit;
            }
        }
        i = i + 1;
    }
    assert(d.take(i - start) =~= d);
    if over {
        None
    } else {
        Some(v)
    }
}


/// Where the leading digit lies decides overflow, except in the decade of the threshold.
proof fn lemma_overflow_cases(dv: int, l: int, e: int, tv: int)
    requires
        l >= 1,
        pow10((l - 1) as nat) <= dv < pow10(l as nat),
        pow10(308) <= tv < pow10(309),
        tv == digits_value(f64_overflow_digits()),
    ensures
        l - 1 + e > 308 ==> !below_f64_overflow(dv, e),
        l - 1 + e < 308 ==> below_f64_overflow(dv, e),
{
    if e >= 0 {
        let pe = pow10(e as nat);
        lemma_pow10_positive(e as nat);
        if l - 1 + e > 308 {
            lemma_pow10_adds((l - 1) as nat, e as nat);
            lemma_pow10_le(309, (l - 1 + e) as nat);
            assert(dv * pe >= pow10((l - 1) as nat) * pe) by (nonlinear_arith)
                requires
                    dv >= pow10((l - 1) as nat),
                    pe >= 1,
            ;
            assert(((l - 1) as nat + e as nat) == (l - 1 + e) as nat);
        }
        if l - 1 + e < 308 {
            lemma_pow10_adds(l as nat, e as nat);
            lemma_pow10_le((l + e) as nat, 308);
            assert(dv * pe < pow10(l as nat) * pe) by (nonlinear_arith)
                requires
                    dv < pow10(l as nat),
                    pe >= 1,
            ;
            assert((l as nat + e as nat) == (l + e) as nat);
        }
    } else {
        let ne = (-e) as nat;
        let pe = pow10(ne);
        lemma_pow10_positive(ne);
        if l - 1 + e > 308 {
            lemma_pow10_adds(309, ne);
            lemma_pow10_le(309 + ne, (l - 1) as nat);
            assert(tv * pe < pow10(309) * pe) by (nonlinear_arith)
                requires
                    tv < pow10(309),
                    pe >= 1,
            ;
        }
        if l - 1 + e < 308 {
            lemma_pow10_adds(308, ne);
            lemma_pow10_le(l as nat, 308 + ne);
            assert(pow10(308) * pe <= tv * pe) by (nonlinear_arith)
                requires
                    pow10(308) <= tv,
                    pe >= 1,
            ;
        }
    }
}

/// In the decade of the threshold, overflow is decided by comparing the mantissa and the
/// threshold digit by digit, both filled up with zeros to one length.
proof fn lemma_padded_compare(
    dv: int,
    sig: Seq<char>,
    td: Seq<char>,
    width: int,
    e: int,
    a: Seq<char>,
    b: Seq<char>,
)
    requires
        sig.len() >= 1,
        all_digits(sig),
        dv == digits_value(sig),
        td == f64_overflow_digits(),
        td.len() == 309,
        all_digits(td),
        sig.len() - 1 + e == 308,
        width == if sig.len() > 309 { sig.len() as int } else { 309 },
        a == Seq::new(width as nat, |j: int| if j < sig.len() { sig[j] } else { '0' }),
        b == Seq::new(width as nat, |j: int| if j < 309 { td[j] } else { '0' }),
    ensures
        all_digits(a),
        all_digits(b),
        below_f64_overflow(dv, e) == (digits_value(a) < digits_value(b)),
{
    let l = sig.len() as int;
    let za = Seq::new((width - l) as nat, |j: int| '0');
    let zb = Seq::new((width - 309) as nat, |j: int| '0');
    assert(a =~= sig + za);
    assert(b =~= td + zb);
    lemma_digits_value_zeros(za);
    lemma_digits_value_zeros(zb);
    lemma_digits_value_concat(sig, za);
    lemma_digits_value_concat(td, zb);
    assert forall|j: int| 0 <= j < a.len() implies is_digit(#[trigger] a[j]) by {
        if j < l {
            assert(is_digit(sig[j]));
        }
    }
    assert forall|j: int| 0 <= j < b.len() implies is_digit(#[trigger] b[j]) by {
        if j < 309 {
            assert(is_digit(td[j]));
        }
    }
    if l <= 309 {
        assert(zb.len() == 0);
        assert(za.len() == e);
    } else {
        assert(za.len() == 0);
        assert(zb.len() == -e);
    }
}

/// The threshold's digits: 309 of them, the first a one.
proof fn lemma_threshold_digits()
    ensures
        f64_overflow_digits().len() == 309,
        all_digits(f64_overflow_digits()),
        pow10(308) <= digits_value(f64_overflow_digits()) < pow10(309),
{
    reveal_strlit("179769313486231580793728971405303415079934132710037826936173778980444968292764750946649017977587207096330286416692887910946555547851940402630657488671505820681908902000708383676273854845817711531764475730270069855571366959622842914819860834936475292719074168444365510704342711559699508093042880177904174497792");
    assert(f64_overflow_digits().len() == 309);
    assert(all_digits(f64_overflow_digits()));
    assert(f64_overflow_digits()[0] == '1');
    lemma_digits_value_bounds(f64_overflow_digits());
}

/// The digits of the mantissa `s[start..p]`, the point left out, and how many follow the point.
fn mantissa_digits_at(s: &Vec<char>, start: usize, p: usize) -> (r: (Vec<char>, usize))
    requires
        start <= p <= s@.len(),
        mantissa_ok(s@.subrange(start as int, p as int)),
    ensures
        ({
            let m = s@.subrange(start as int, p as int);
            let dp = piece_len(m, '.');
            &&& r.0@ == (if dp >= m.len() {
                m
            } else {
                m.take(dp as int) + m.skip(dp as int + 1)
            })
            &&& r.1 == (if dp >= m.len() {
                0
            } else {
                m.len() - dp - 1
            })
            &&& all_digits(r.0@)
        }),
{
    let ghost m = s@.subrange(start as int, p as int);
    let mut q = start;
    while q < p && s[q] != '.'
        invariant
            start <= q <= p <= s@.len(),
            forall|j: int| start <= j < q ==> #[trigger] s@[j] != '.',
        decreases p - q,
    {
        q = q + 1;
    }
    let ghost dp = piece_len(m, '.');
    proof {
        lemma_piece_scan(m, '.', 0, q - start);
        assert(m.skip(0) =~= m);
    }
    assert(dp == q - start);
    let mut digits: Vec<char> = Vec::new();
    let mut i = start;
    while i < q
        invariant
            start <= i <= q <= p <= s@.len(),
            digits@ =~= s@.subrange(start as int, i as int),
        decreases q - i,
    {
        digits.push(s[i]);
        i = i + 1;
    }
    let frac_len: usize = if q < p { p - q - 1 } else { 0 };
    if q < p {
        let mut j = q + 1;
        while j < p
            invariant
                q < p <= s@.len(),
                q + 1 <= j <= p,
                digits@ =~= s@.subrange(start as int, q as int) + s@.subrange(q + 1, j as int),
            decreases p - j,
        {
            digits.push(s[j]);
            j = j + 1;
        }
    }
    proof {
        if q < p {
            assert(m.take(dp as int) =~= s@.subrange(start as int, q as int));
            assert(m.skip(dp as int + 1) =~= s@.subrange(q + 1, p as int));
            assert(all_digits(m.take(dp as int)));
            assert(all_digits(m.skip(dp as int + 1)));
            assert forall|j: int| 0 <= j < digits@.len() implies is_digit(#[trigger] digits@[j]) by {
                if j < dp {
                    assert(digits@[j] == m.take(dp as int)[j]);
                } else {
                    assert(digits@[j] == m.skip(dp as int + 1)[j - dp]);
                }
            }
        } else {
            assert(digits@ =~= m);
        }
    }
    (digits, frac_len)
}

/// In the decade of the threshold (the leading digit at the place of `10^308`), compares the
/// significant digits `digits[z..]` with the threshold digit by digit.
fn decade_below_threshold(digits: &Vec<char>, z: usize) -> (r: bool)
    requires
        z < digits@.len(),
        all_digits(digits@),
        digits@[z as int] != '0',
    ensures
        r == below_f64_overflow(digits_value(digits@.skip(z as int)), 309 - (digits@.len() - z)),
{
    let ghost sig = digits@.skip(z as int);
    let l = digits.len() - z;
    proof {
        lemma_threshold_digits();
        assert(all_digits(sig));
    }
    let tdigits = crate::text::chars_of("179769313486231580793728971405303415079934132710037826936173778980444968292764750946649017977587207096330286416692887910946555547851940402630657488671505820681908902000708383676273854845817711531764475730270069855571366959622842914819860834936475292719074168444365510704342711559699508093042880177904174497792");
    assert(tdigits@ == f64_overflow_digits());
    let width: usize = if l > 309 { l } else { 309 };
    let ghost a = Seq::new(width as nat, |j: int| if j < l { sig[j] } else { '0' });
    let ghost b = Seq::new(width as nat, |j: int| if j < 309 { tdigits@[j] } else { '0' });
    proof {
        lemma_padded_compare(
            digits_value(sig),
            sig,
            f64_overflow_digits(),
            width as int,
            309 - l,
            a,
            b,
        );
    }
    let len = digits.len();
    let mut j: usize = 0;
    while j < width
        invariant
            len == digits@.len(),
            j <= width,
            width == a.len(),
            width == b.len(),
            l == sig.len(),
            z + l == digits@.len(),
            sig == digits@.skip(z as int),
            tdigits@.len() == 309,
            width >= 309,
            width >= l,
            a == Seq::new(width as nat, |j: int| if j < l { sig[j] } else { '0' }),
            b == Seq::new(width as nat, |j: int| if j < 309 { tdigits@[j] } else { '0' }),
            a.take(j as int) == b.take(j as int),
            all_digits(a),
            all_digits(b),
            below_f64_overflow(digits_value(sig), 309 - l) == (digits_value(a) < digits_value(b)),
        decreases width - j,
    {
        let da = if j < l {
            assert(z + j < len);
            digits[z + j]
        } else {
            '0'
        };
        let db = if j < 309 { tdigits[j] } else { '0' };
        assert(da == a[j as int]);
        assert(db == b[j as int]);
        if da != db {
            proof {
                if da < db {
                    lemma_digits_lex_less(a, b, j as int);
                } else {
                    lemma_digits_lex_less(b, a, j as int);
                }
            }
            return da < db;
        }
        assert(a.take(j + 1) =~= a.take(j as int).push(da));
        assert(b.take(j + 1) =~= b.take(j as int).push(db));
        j = j + 1;
    }
    assert(a =~= a.take(width as int));
    assert(b =~= b.take(width as int));
    false
}

/// The exponent of a float text whose mark (or end) is at `p`: whether it is negative, and its
/// magnitude unless that passes `2^100`.
fn exponent_at(s: &Vec<char>, start: usize, p: usize) -> (r: (bool, Option<u128>))
    requires
        float_text_ok(s@),
        start == s@.len() - without_sign(s@).len(),
        p == start + exp_pos(without_sign(s@)),
        p <= s@.len(),
        !matches_word(without_sign(s@), seq!['i', 'n', 'f']),
        !matches_word(without_sign(s@), seq!['i', 'n', 'f', 'i', 'n', 'i', 't', 'y']),
        !matches_word(without_sign(s@), seq!['n', 'a', 'n']),
    ensures
        match r.1 {
            Some(v) => v <= 0x10_0000_0000_0000_0000_0000_0000 && float_exp(s@) == if r.0 {
                -(v as int)
            } else {
                v as int
            },
            None => (r.0 ==> float_exp(s@) < -0x10_0000_0000_0000_0000_0000_0000) && (!r.0 ==> float_exp(s@)
                > 0x10_0000_0000_0000_0000_0000_0000),
        },
{
    let n = s.len();
    let ghost t = without_sign(s@);
    let ghost k = exp_pos(t);
    assert(t =~= s@.skip(start as int));
    if p >= n {
        return (false, Some(0));
    }
    let xs: usize = if p + 1 < n && (s[p + 1] == '+' || s[p + 1] == '-') { p + 2 } else { p + 1 };
    let negative = p + 1 < n && s[p + 1] == '-';
    proof {
        let x = t.skip(k as int).drop_first();
        assert(t.skip(k as int) =~= s@.skip(p as int));
        assert(x =~= s@.skip(p + 1));
        assert(exponent_ok(t.skip(k as int)));
        if negative {
            assert(x.drop_first() =~= s@.skip(xs as int));
        }
        assert(without_sign(x) =~= s@.skip(xs as int));
    }
    (negative, digits_value_capped(s, xs))
}

/// Whether the decimal with mantissa digits `digits`, `frac_len` of them after the point, and the
/// given exponent lies below the threshold.
fn magnitude_below_threshold(
    digits: &Vec<char>,
    frac_len: usize,
    negative: bool,
    exp_value: Option<u128>,
    Ghost(exp): Ghost<int>,
) -> (r: bool)
    requires
        all_digits(digits@),
        match exp_value {
            Some(v) => v <= 0x10_0000_0000_0000_0000_0000_0000 && exp == if negative {
                -(v as int)
            } else {
                v as int
            },
            None => (negative ==> exp < -0x10_0000_0000_0000_0000_0000_0000) && (!negative ==> exp
                > 0x10_0000_0000_0000_0000_0000_0000),
        },
    ensures
        r == below_f64_overflow(digits_value(digits@), exp - frac_len),
{
    let ghost e = exp - frac_len;
    // The first significant digit.
    let mut z: usize = 0;
    while z < digits.len() && digits[z] == '0'
        invariant
            z <= digits@.len(),
            forall|j: int| 0 <= j < z ==> #[trigger] digits@[j] == '0',
        decreases digits@.len() - z,
    {
        z = z + 1;
    }
    let ghost sig = digits@.skip(z as int);
    proof {
        assert(digits@ =~= digits@.take(z as int) + sig);
        lemma_digits_value_zeros(digits@.take(z as int));
        lemma_digits_value_concat(digits@.take(z as int), sig);
        assert(all_digits(sig));
        lemma_digits_value_bounds(sig);
        lemma_threshold_digits();
    }
    let ghost dv = digits_value(digits@);
    let ghost tv = digits_value(f64_overflow_digits());
    assert(dv == digits_value(sig));
    if z == digits.len() {
        // A zero mantissa.
        proof {
            lemma_pow10_positive(308);
            if e >= 0 {
                assert(dv * pow10(e as nat) == 0);
            } else {
                lemma_pow10_positive((-e) as nat);
                assert(tv * pow10((-e) as nat) > 0) by (nonlinear_arith)
                    requires
                        tv >= 1,
                        pow10((-e) as nat) >= 1,
                ;
            }
        }
        return true;
    }
    let l = digits.len() - z;
    assert(sig.len() == l);
    assert(sig[0] == digits@[z as int]);
    proof {
        lemma_overflow_cases(dv, l as int, e, tv);
    }
    match exp_value {
        None => negative,
        Some(ev) => {
            let lead: i128 = (l as i128) - 1 + (if negative { -(ev as i128) } else { ev as i128 }) - (frac_len as i128);
            assert(lead == l - 1 + e);
            if lead > 308 {
                false
            } else if lead < 308 {
                true
            } else {
                decade_below_threshold(digits, z)
            }
        },
    }
}

/// Tells whether `f64::from_str` reads the text, which it accepts, as a finite number.
pub fn is_finite_float_text(s: &Vec<char>) -> (r: bool)
    requires
        float_text_ok(s@),
    ensures
        r == float_text_finite(s@),
{
    let n = s.len();
    let start: usize = if n > 0 && (s[0] == '+' || s[0] == '-') { 1 } else { 0 };
    let ghost t = without_sign(s@);
    assert(t =~= s@.skip(start as int));
    let inf_word = vec!['i', 'n', 'f'];
    let infinity_word = vec!['i', 'n', 'f', 'i', 'n', 'i', 't', 'y'];
    let nan_word = vec!['n', 'a', 'n'];
    assert(inf_word@ =~= seq!['i', 'n', 'f']);
    assert(infinity_word@ =~= seq!['i', 'n', 'f', 'i', 'n', 'i', 't', 'y']);
    assert(nan_word@ =~= seq!['n', 'a', 'n']);
    if word_matches_at(s, start, &inf_word) || word_matches_at(s, start, &infinity_word) || word_matches_at(
        s,
        start,
        &nan_word,
    ) {
        return false;
    }
    // The exponent mark.
    let mut p = start;
    while p < n && lower_char(s[p]) != 'e'
        invariant
            start <= p <= n,
            n == s@.len(),
            forall|k: int| start <= k < p ==> lower(#[trigger] s@[k]) != 'e',
        decreases n - p,
    {
        p = p + 1;
    }
    let ghost k = exp_pos(t);
    proof {
        lemma_exp_scan(s@, start as int, p as int);
        assert(t.take(k as int) =~= s@.subrange(start as int, p as int));
    }
    let (digits, frac_len) = mantissa_digits_at(s, start, p);
    assert(digits@ == float_parts(s@).0);
    let (negative, exp_value) = exponent_at(s, start, p);
    magnitude_below_threshold(&digits, frac_len, negative, exp_value, Ghost(float_exp(s@)))
}

} // verus!

verus! {

/// The integer digits as JSON writes them: leading zeros dropped, at least one digit.
pub open spec fn trim_int_zeros(d: Seq<char>) -> Seq<char>
    decreases d.len(),
{
    if d.len() == 0 {
        seq!['0']
    } else if d.len() > 1 && d[0] == '0' {
        trim_int_zeros(d.drop_first())
    } else {
        d
    }
}

/// A finite float text written as a JSON number of the same value that JSON reads as a float: no
/// `+` sign, no leading zeros, a digit before and after the point, and a point or an exponent.
pub open spec fn json_float_text(s: Seq<char>) -> Seq<char> {
    let t = without_sign(s);
    let sign = if s.len() > 0 && s[0] == '-' {
        seq!['-']
    } else {
        seq![]
    };
    let k = exp_pos(t);
    let m = t.take(k as int);
    let x = t.skip(k as int);
    let dp = piece_len(m, '.');
    let ip = m.take(dp as int);
    let fp = if dp < m.len() {
        m.skip(dp as int + 1)
    } else {
        seq![]
    };
    let frac = if fp.len() > 0 {
        seq!['.'] + fp
    } else if x.len() == 0 {
        seq!['.', '0']
    } else {
        seq![]
    };
    sign + trim_int_zeros(ip) + frac + x
}

proof fn lemma_trim_scan(d: Seq<char>, a: int)
    requires
        0 <= a <= d.len(),
        d.len() >= 1 ==> a < d.len(),
        forall|j: int| 0 <= j < a ==> #[trigger] d[j] == '0',
        a + 1 < d.len() ==> d[a] != '0',
    ensures
        trim_int_zeros(d) == if d.len() == 0 { seq!['0'] } else { d.skip(a) },
    decreases a,
{
    if a > 0 {
        lemma_trim_scan(d.drop_first(), a - 1);
        assert(d.drop_first().skip(a - 1) =~= d.skip(a));
    } else {
        if d.len() > 0 {
            assert(d.skip(0) =~= d);
        }
    }
}

fn push_range(out: &mut Vec<char>, s: &Vec<char>, lo: usize, hi: usize)
    requires
        lo <= hi <= s@.len(),
    ensures
        final(out)@ == old(out)@ + s@.subrange(lo as int, hi as int),
{
    let mut i = lo;
    while i < hi
        invariant
            lo <= i <= hi <= s@.len(),
            out@ == old(out)@ + s@.subrange(lo as int, i as int),
        decreases hi - i,
    {
        out.push(s[i]);
        i = i + 1;
        assert(out@ =~= old(out)@ + s@.subrange(lo as int, i as int));
    }
}

/// Where the parts of a float text begin: after the sign, the exponent mark (or the end), and the
/// point (or the exponent mark).
fn float_text_marks(s: &Vec<char>) -> (r: (usize, usize, usize))
    ensures
        ({
            let t = without_sign(s@);
            let k = exp_pos(t);
            let m = t.take(k as int);
            &&& r.0 + t.len() == s@.len()
            &&& r.0 <= r.2 <= r.1 <= s@.len()
            &&& (r.0 == 1) == (s@.len() > 0 && (s@[0] == '+' || s@[0] == '-'))
            &&& t == s@.skip(r.0 as int)
            &&& m == s@.subrange(r.0 as int, r.1 as int)
            &&& t.skip(k as int) == s@.subrange(r.1 as int, s@.len() as int)
            &&& r.2 - r.0 == piece_len(m, '.')
        }),
{
    let n = s.len();
    let start: usize = if n > 0 && (s[0] == '+' || s[0] == '-') { 1 } else { 0 };
    let ghost t = without_sign(s@);
    assert(t =~= s@.skip(start as int));
    let mut p = start;
    while p < n && lower_char(s[p]) != 'e'
        invariant
            start <= p <= n,
            n == s@.len(),
            forall|k: int| start <= k < p ==> lower(#[trigger] s@[k]) != 'e',
        decreases n - p,
    {
        p = p + 1;
    }
    let ghost k = exp_pos(t);
    let ghost m = t.take(k as int);
    proof {
        lemma_exp_scan(s@, start as int, p as int);
        assert(m =~= s@.subrange(start as int, p as int));
        assert(t.skip(k as int) =~= s@.subrange(p as int, n as int));
    }
    let mut q = start;
    while q < p && s[q] != '.'
        invariant
            start <= q <= p <= s@.len(),
            forall|j: int| start <= j < q ==> #[trigger] s@[j] != '.',
        decreases p - q,
    {
        q = q + 1;
    }
    proof {
        lemma_piece_scan(m, '.', 0, q - start);
        assert(m.skip(0) =~= m);
    }
    (start, p, q)
}

/// Appends the integer digits `s[start..q]` as JSON writes them.
fn push_int_digits(out: &mut Vec<char>, s: &Vec<char>, start: usize, q: usize)
    requires
        start <= q <= s@.len(),
    ensures
        final(out)@ == old(out)@ + trim_int_zeros(s@.subrange(start as int, q as int)),
{
    let ghost ip = s@.subrange(start as int, q as int);
    let mut a = start;
    while q - a > 1 && s[a] == '0'
        invariant
            start <= a <= q <= s@.len(),
            q >= start + 1 ==> a < q,
            forall|j: int| start <= j < a ==> #[trigger] s@[j] == '0',
        decreases q - a,
    {
        a = a + 1;
    }
    proof {
        assert forall|j: int| 0 <= j < a - start implies #[trigger] ip[j] == '0' by {
            assert(ip[j] == s@[start + j]);
        }
        if a + 1 < q {
            assert(ip[a - start] == s@[a as int]);
        }
        lemma_trim_scan(ip, a - start);
        if ip.len() > 0 {
            assert(ip.skip(a - start) =~= s@.subrange(a as int, q as int));
        }
    }
    if q == start {
        out.push('0');
        assert(out@ =~= old(out)@ + seq!['0']);
    } else {
        push_range(out, s, a, q);
    }
}

/// Appends the fraction `s[q+1..p]` (where `q < p` marks a point) as JSON writes it: with its
/// point where it has digits, as `.0` where nothing follows, else nothing.
fn push_fraction(out: &mut Vec<char>, s: &Vec<char>, q: usize, p: usize)
    requires
        q <= p <= s@.len(),
    ensures
        ({
            let fp = if q < p { s@.subrange(q + 1, p as int) } else { seq![] };
            final(out)@ == old(out)@ + if fp.len() > 0 {
                seq!['.'] + fp
            } else if p == s@.len() {
                seq!['.', '0']
            } else {
                seq![]
            }
        }),
{
    if q < p && q + 1 < p {
        out.push('.');
        let ghost dot = out@;
        push_range(out, s, q + 1, p);
        assert(out@ =~= old(out)@ + (seq!['.'] + s@.subrange(q + 1, p as int)));
    } else if p == s.len() {
        out.push('.');
        out.push('0');
        assert(out@ =~= old(out)@ + seq!['.', '0']);
    } else {
        assert(out@ =~= old(out)@ + seq![]);
    }
}

/// Writes a float text that `f64::from_str` accepts as a JSON number of the same value.
pub fn json_float_text_of(s: &Vec<char>) -> (r: Vec<char>)
    ensures
        r@ == json_float_text(s@),
{
    let n = s.len();
    let (start, p, q) = float_text_marks(s);
    let ghost t = without_sign(s@);
    let ghost k = exp_pos(t);
    let ghost m = t.take(k as int);
    let ghost dp = piece_len(m, '.');
    assert(m.take(dp as int) =~= s@.subrange(start as int, q as int));
    proof {
        if dp < m.len() {
            assert(m.skip(dp as int + 1) =~= s@.subrange(q + 1, p as int));
        }
    }
    let mut out: Vec<char> = Vec::new();
    if n > 0 && s[0] == '-' {
        out.push('-');
    }
    assert(out@ == if s@.len() > 0 && s@[0] == '-' { seq!['-'] } else { seq![] });
    push_int_digits(&mut out, s, start, q);
    push_fraction(&mut out, s, q, p);
    push_range(&mut out, s, p, n);
    out
}

} // verus!
