//! Decimal numbers in text: vector components, and indices.

use vstd::prelude::*;
use vstd::slice::slice_subrange;
use crate::cosine::MAX_COMPONENT;

verus! {

/// One of the ten decimal digits.
pub open spec fn is_digit(c: char) -> bool {
    48 <= c as u32 <= 57
}

/// The number that a decimal digit stands for.
pub open spec fn digit_value(c: char) -> int {
    c as u32 - 48
}

/// Every character of `s` is a decimal digit.
pub open spec fn all_digits(s: Seq<char>) -> bool {
    forall|i: int| 0 <= i < s.len() ==> is_digit(#[trigger] s[i])
}

/// The number that a run of decimal digits stands for; 0 for the empty run.
pub open spec fn digits_value(s: Seq<char>) -> int
    decreases s.len(),
{
    if s.len() == 0 {
        0
    } else {
        digits_value(s.drop_last()) * 10 + digit_value(s.last())
    }
}

/// The first position at or after `i` that holds a full stop, or the end.
pub open spec fn first_dot(s: Seq<char>, i: int) -> int
    decreases s.len() - i,
{
    if i < 0 || i >= s.len() || s[i] == '.' {
        i
    } else {
        first_dot(s, i + 1)
    }
}

/// The power of ten with the exponent `n`.
pub open spec fn pow10(n: nat) -> nat
    decreases n,
{
    if n == 0 {
        1
    } else {
        10 * pow10((n - 1) as nat)
    }
}

/// The mark of an exponent.
pub open spec fn is_exp_mark(c: char) -> bool {
    c == 'e' || c == 'E'
}

/// The first position at or after `i` that holds the mark of an exponent, or
/// the end.
pub open spec fn first_exp(s: Seq<char>, i: int) -> int
    decreases s.len() - i,
{
    if i < 0 || i >= s.len() || is_exp_mark(s[i]) {
        i
    } else {
        first_exp(s, i + 1)
    }
}

/// The part of an unsigned decimal before the mark of its exponent.
pub open spec fn mantissa_of(body: Seq<char>) -> Seq<char> {
    body.take(first_exp(body, 0))
}

/// The part of an unsigned decimal after the mark of its exponent.
pub open spec fn exponent_text(body: Seq<char>) -> Option<Seq<char>> {
    if first_exp(body, 0) < body.len() {
        Some(body.skip(first_exp(body, 0) + 1))
    } else {
        None
    }
}

/// The digits before the full stop of a mantissa.
pub open spec fn whole_part(m: Seq<char>) -> Seq<char> {
    m.take(first_dot(m, 0))
}

/// The digits after the full stop of a mantissa.
pub open spec fn fraction_part(m: Seq<char>) -> Seq<char> {
    if first_dot(m, 0) < m.len() {
        m.skip(first_dot(m, 0) + 1)
    } else {
        Seq::empty()
    }
}

/// The digits of an exponent, without its sign.
pub open spec fn exponent_digits(x: Seq<char>) -> Seq<char> {
    if x.len() > 0 && (x[0] == '-' || x[0] == '+') {
        x.skip(1)
    } else {
        x
    }
}

/// The number that an exponent stands for: digits, optionally after a sign.
pub open spec fn exponent_of(x: Seq<char>) -> Option<int> {
    let digits = exponent_digits(x);
    if digits.len() > 0 && all_digits(digits) {
        if x[0] == '-' {
            Some(-digits_value(digits))
        } else {
            Some(digits_value(digits))
        }
    } else {
        None
    }
}

/// The power of ten by which an unsigned decimal multiplies its mantissa: 0
/// where it has no exponent.
pub open spec fn shift_of(body: Seq<char>) -> Option<int> {
    match exponent_text(body) {
        None => Some(0),
        Some(x) => exponent_of(x),
    }
}

/// The number that the first `n` digits of a run stand for, the run filled
/// up with zeros where it has fewer; 0 where `n` is not positive.
pub open spec fn scaled(digits: Seq<char>, n: int) -> int {
    if n <= 0 {
        0
    } else if n <= digits.len() {
        digits_value(digits.take(n))
    } else {
        digits_value(digits) * pow10((n - digits.len()) as nat)
    }
}

/// The value of an unsigned decimal in ten-thousandths, further digits cut
/// off. An unsigned decimal is a mantissa, optionally followed by the mark
/// of an exponent and an exponent. A mantissa is a run of digits, optionally
/// followed by a full stop and a run of digits, with at least one digit in
/// all.
pub open spec fn unsigned_component(body: Seq<char>) -> Option<int> {
    let m = mantissa_of(body);
    let whole = whole_part(m);
    let frac = fraction_part(m);
    if all_digits(whole) && all_digits(frac) && whole.len() + frac.len() > 0 && shift_of(
        body,
    ) is Some {
        Some(scaled(whole + frac, whole.len() + shift_of(body).unwrap() + 4))
    } else {
        None
    }
}

/// The value of a decimal with an optional sign, in ten-thousandths.
pub open spec fn signed_component(tok: Seq<char>) -> Option<int> {
    if tok.len() > 0 && tok[0] == '-' {
        match unsigned_component(tok.skip(1)) {
            Some(v) => Some(-v),
            None => None,
        }
    } else if tok.len() > 0 && tok[0] == '+' {
        unsigned_component(tok.skip(1))
    } else {
        unsigned_component(tok)
    }
}

/// The vector component that a field stands for: a signed decimal of at most
/// `MAX_COMPONENT` ten-thousandths in magnitude.
pub open spec fn component_of(tok: Seq<char>) -> Option<i32> {
    match signed_component(tok) {
        Some(v) => if -MAX_COMPONENT <= v <= MAX_COMPONENT {
            Some(v as i32)
        } else {
            None
        },
        None => None,
    }
}

/// Tells whether a character is a decimal digit.
pub fn is_digit_char(c: char) -> (b: bool)
    ensures
        b == is_digit(c),
{
    let u: u32 = c as u32;
    48 <= u && u <= 57
}

/// A run of digits stands for a number that is not negative, and no prefix
/// of it stands for a larger one.
pub proof fn lemma_digits_prefix(s: Seq<char>, k: int)
    requires
        all_digits(s),
        0 <= k <= s.len(),
    ensures
        0 <= digits_value(s.take(k)) <= digits_value(s),
    decreases s.len(),
{
    if k == s.len() {
        assert(s.take(k) =~= s);
        if s.len() > 0 {
            assert(all_digits(s.drop_last())) by {
                assert forall|i: int| 0 <= i < s.drop_last().len() implies is_digit(
                    #[trigger] s.drop_last()[i],
                ) by {
                    assert(s.drop_last()[i] == s[i]);
                }
            }
            lemma_digits_prefix(s.drop_last(), k - 1);
            assert(is_digit(s[s.len() - 1]));
        }
    } else {
        assert(all_digits(s.drop_last())) by {
            assert forall|i: int| 0 <= i < s.drop_last().len() implies is_digit(
                #[trigger] s.drop_last()[i],
            ) by {
                assert(s.drop_last()[i] == s[i]);
            }
        }
        assert(s.drop_last().take(k) =~= s.take(k));
        lemma_digits_prefix(s.drop_last(), k);
        lemma_digits_prefix(s.drop_last(), s.len() - 1);
        assert(s.drop_last().take(s.len() - 1) =~= s.drop_last());
        assert(is_digit(s[s.len() - 1]));
    }
}

proof fn lemma_first_dot(s: Seq<char>, i: int, p: int)
    requires
        0 <= i <= p <= s.len(),
        forall|k: int| i <= k < p ==> s[k] != '.',
        p == s.len() || s[p] == '.',
    ensures
        first_dot(s, i) == p,
    decreases p - i,
{
    if i < p {
        lemma_first_dot(s, i + 1, p);
    }
}

proof fn lemma_first_dot_range(s: Seq<char>, i: int)
    requires
        0 <= i <= s.len(),
    ensures
        i <= first_dot(s, i) <= s.len(),
        forall|k: int| i <= k < first_dot(s, i) ==> s[k] != '.',
        first_dot(s, i) == s.len() || s[first_dot(s, i)] == '.',
    decreases s.len() - i,
{
    if i < s.len() && s[i] != '.' {
        lemma_first_dot_range(s, i + 1);
    }
}

proof fn lemma_first_exp(s: Seq<char>, i: int, p: int)
    requires
        0 <= i <= p <= s.len(),
        forall|k: int| i <= k < p ==> !is_exp_mark(s[k]),
        p == s.len() || is_exp_mark(s[p]),
    ensures
        first_exp(s, i) == p,
    decreases p - i,
{
    if i < p {
        lemma_first_exp(s, i + 1, p);
    }
}

proof fn lemma_first_exp_range(s: Seq<char>, i: int)
    requires
        0 <= i <= s.len(),
    ensures
        i <= first_exp(s, i) <= s.len(),
        forall|k: int| i <= k < first_exp(s, i) ==> !is_exp_mark(s[k]),
        first_exp(s, i) == s.len() || is_exp_mark(s[first_exp(s, i)]),
    decreases s.len() - i,
{
    if i < s.len() && !is_exp_mark(s[i]) {
        lemma_first_exp_range(s, i + 1);
    }
}

/// The powers of ten are positive and grow with their exponents.
pub proof fn lemma_pow10_grows(a: nat, b: nat)
    requires
        a <= b,
    ensures
        1 <= pow10(a) <= pow10(b),
    decreases b,
{
    if b > 0 {
        if a == b {
            lemma_pow10_grows((a - 1) as nat, (b - 1) as nat);
        } else {
            lemma_pow10_grows(a, (b - 1) as nat);
        }
    }
}

/// The run of digits `0..w` and `fs..fe` of `body` is a mantissa that ends
/// at `fe`: digits, then a full stop and digits where `fs` is past `w`.
spec fn shape(body: Seq<char>, w: int, fs: int, fe: int) -> bool {
    &&& 0 <= w <= fs <= fe <= body.len()
    &&& forall|i: int| 0 <= i < w ==> is_digit(#[trigger] body[i])
    &&& forall|i: int| fs <= i < fe ==> is_digit(#[trigger] body[i])
    &&& fs == w ==> fe == w
    &&& fs != w ==> fs == w + 1 && body[w] == '.'
}

/// The digits of a mantissa of the shape given.
spec fn shape_digits(body: Seq<char>, w: int, fs: int, fe: int) -> Seq<char> {
    body.subrange(0, w) + body.subrange(fs, fe)
}

proof fn lemma_shape_valid(body: Seq<char>, w: int, fs: int, fe: int)
    requires
        shape(body, w, fs, fe),
        fe == body.len() || is_exp_mark(body[fe]),
    ensures
        mantissa_of(body) == body.take(fe),
        whole_part(mantissa_of(body)) == body.subrange(0, w),
        fraction_part(mantissa_of(body)) == body.subrange(fs, fe),
        exponent_text(body) == if fe < body.len() {
            Some(body.skip(fe + 1))
        } else {
            None
        },
        all_digits(body.subrange(0, w)),
        all_digits(body.subrange(fs, fe)),
        all_digits(shape_digits(body, w, fs, fe)),
{
    assert forall|k: int| 0 <= k < fe implies !is_exp_mark(body[k]) by {
        if k < w {
            assert(is_digit(body[k]));
        } else if k >= fs {
            assert(is_digit(body[k]));
        }
    }
    lemma_first_exp(body, 0, fe);
    let m = body.take(fe);
    assert forall|k: int| 0 <= k < w implies m[k] != '.' by {
        assert(is_digit(body[k]));
    }
    lemma_first_dot(m, 0, w);
    assert(m.take(w) =~= body.subrange(0, w));
    if fs != w {
        assert(m.skip(w + 1) =~= body.subrange(fs, fe));
    } else {
        assert(body.subrange(fs, fe) =~= Seq::<char>::empty());
    }
    assert(all_digits(body.subrange(0, w)));
    assert(all_digits(body.subrange(fs, fe)));
    let d = shape_digits(body, w, fs, fe);
    assert forall|i: int| 0 <= i < d.len() implies is_digit(#[trigger] d[i]) by {
        if i < w {
            assert(d[i] == body[i]);
        } else {
            assert(d[i] == body[fs + (i - w)]);
        }
    }
}

proof fn lemma_shape_invalid(body: Seq<char>, w: int, fs: int, fe: int)
    requires
        shape(body, w, fs, fe),
        fe < body.len(),
        !is_digit(body[fe]),
        !is_exp_mark(body[fe]),
        fs == w ==> body[fe] != '.',
    ensures
        unsigned_component(body) is None,
{
    assert forall|k: int| 0 <= k <= fe implies !is_exp_mark(body[k]) by {
        if k < w {
            assert(is_digit(body[k]));
        } else if fs <= k < fe {
            assert(is_digit(body[k]));
        }
    }
    lemma_first_exp_range(body, 0);
    let x = first_exp(body, 0);
    assert(x > fe) by {
        if x <= fe {
            assert(is_exp_mark(body[x]));
        }
    }
    let m = body.take(x);
    assert(m[fe] == body[fe]);
    if fs != w {
        assert forall|k: int| 0 <= k < w implies m[k] != '.' by {
            assert(is_digit(body[k]));
        }
        lemma_first_dot(m, 0, w);
        let frac = fraction_part(m);
        assert(frac[fe - fs] == body[fe]);
        assert(!is_digit(frac[fe - fs]));
    } else {
        lemma_first_dot_range(m, 0);
        let d = first_dot(m, 0);
        assert(d > w) by {
            if d <= w {
                if d < w {
                    assert(is_digit(body[d]));
                }
                assert(m[d] == '.');
            }
        }
        let whole = whole_part(m);
        assert(whole[w] == body[w]);
        assert(!is_digit(whole[w]));
    }
}

/// Finds the mantissa of an unsigned decimal: where its digits before the
/// full stop end, and where its digits after the full stop begin and end.
fn scan_mantissa(body: &[char]) -> (r: Option<(usize, usize, usize)>)
    ensures
        match r {
            Some((w, fs, fe)) => shape(body@, w as int, fs as int, fe as int) && (fe == body@.len()
                || is_exp_mark(body@[fe as int])) && w + (fe - fs) > 0,
            None => unsigned_component(body@) is None,
        },
{
    let n = body.len();
    let mut w: usize = 0;
    while w < n && is_digit_char(body[w])
        invariant
            n == body.len(),
            w <= n,
            forall|i: int| 0 <= i < w ==> is_digit(#[trigger] body@[i]),
        decreases n - w,
    {
        w += 1;
    }
    let dotted = w < n && body[w] == '.';
    let fs: usize = if dotted {
        w + 1
    } else {
        w
    };
    let mut fe: usize = fs;
    if dotted {
        while fe < n && is_digit_char(body[fe])
            invariant
                n == body.len(),
                fs <= fe <= n,
                forall|i: int| fs <= i < fe ==> is_digit(#[trigger] body@[i]),
            decreases n - fe,
        {
            fe += 1;
        }
    }
    assert(shape(body@, w as int, fs as int, fe as int));
    if fe < n && body[fe] != 'e' && body[fe] != 'E' {
        proof {
            lemma_shape_invalid(body@, w as int, fs as int, fe as int);
        }
        return None;
    }
    proof {
        lemma_shape_valid(body@, w as int, fs as int, fe as int);
    }
    if w + (fe - fs) == 0 {
        return None;
    }
    Some((w, fs, fe))
}

/// The largest magnitude of an exponent that is told apart from larger ones.
const EXPONENT_CAP: u128 = 1267650600228229401496703205376;

/// An exponent's magnitude, or the cap where it is larger.
spec fn capped_magnitude(shift: int) -> int {
    let magnitude = if shift < 0 {
        -shift
    } else {
        shift
    };
    if magnitude > EXPONENT_CAP {
        EXPONENT_CAP as int
    } else {
        magnitude
    }
}

/// Reads the exponent of an unsigned decimal whose mantissa ends at `fe`:
/// whether it is negative, and its magnitude up to the cap.
fn scan_exponent(body: &[char], fe: usize) -> (r: Option<(bool, u128)>)
    requires
        fe <= body@.len(),
        exponent_text(body@) == if fe < body@.len() {
            Some(body@.skip(fe + 1))
        } else {
            None
        },
    ensures
        match r {
            Some((negative, e)) => shift_of(body@) is Some && e == capped_magnitude(
                shift_of(body@).unwrap(),
            ) && (negative ==> shift_of(body@).unwrap() <= 0) && (!negative ==> shift_of(
                body@,
            ).unwrap() >= 0),
            None => shift_of(body@) is None,
        },
{
    let n = body.len();
    if fe >= n {
        return Some((false, 0));
    }
    let ghost x = body@.skip(fe + 1);
    let mut p: usize = fe + 1;
    let mut negative = false;
    if p < n && (body[p] == '-' || body[p] == '+') {
        negative = body[p] == '-';
        p += 1;
    }
    let ghost digits = exponent_digits(x);
    assert(digits =~= body@.skip(p as int));
    assert(negative == (x.len() > 0 && x[0] == '-'));
    if p == n {
        return None;
    }
    let mut e: u128 = 0;
    let mut q: usize = p;
    assert(digits.take(0) =~= Seq::<char>::empty());
    while q < n
        invariant
            n == body.len(),
            p <= q <= n,
            fe < n,
            x == body@.skip(fe + 1),
            exponent_text(body@) == Some(x),
            negative == (x.len() > 0 && x[0] == '-'),
            digits == body@.skip(p as int),
            digits == exponent_digits(x),
            all_digits(digits.take(q - p)),
            digits_value(digits.take(q - p)) >= 0,
            e == if digits_value(digits.take(q - p)) > EXPONENT_CAP {
                EXPONENT_CAP as int
            } else {
                digits_value(digits.take(q - p))
            },
        decreases n - q,
    {
        if !is_digit_char(body[q]) {
            assert(!is_digit(digits[q - p]));
            return None;
        }
        let d: u128 = (body[q] as u32 - 48) as u128;
        proof {
            assert(digits.take(q - p + 1).drop_last() =~= digits.take(q - p));
            assert(digits.take(q - p + 1).last() == body@[q as int]);
            assert forall|i: int| 0 <= i < q - p + 1 implies is_digit(
                #[trigger] digits.take(q - p + 1)[i],
            ) by {
                if i < q - p {
                    assert(digits.take(q - p)[i] == digits[i]);
                }
            }
        }
        let next: u128 = e * 10 + d;
        e = if next > EXPONENT_CAP {
            EXPONENT_CAP
        } else {
            next
        };
        q += 1;
    }
    assert(digits.take(digits.len() as int) =~= digits);
    Some((negative, e))
}

/// The number that the first `n` digits of a run stand for is at least the
/// number that fewer of its digits stand for.
proof fn lemma_scaled_lower(digits: Seq<char>, n: int, k: int)
    requires
        all_digits(digits),
        0 <= k <= digits.len(),
        k <= n,
    ensures
        scaled(digits, n) >= digits_value(digits.take(k)) >= 0,
{
    lemma_digits_prefix(digits, k);
    if n <= 0 {
        assert(digits.take(0) =~= Seq::<char>::empty());
    } else if n <= digits.len() {
        let head = digits.take(n);
        assert forall|i: int| 0 <= i < head.len() implies is_digit(#[trigger] head[i]) by {
            assert(head[i] == digits[i]);
        }
        lemma_digits_prefix(head, k);
        assert(head.take(k) =~= digits.take(k));
    } else {
        lemma_pow10_grows(0, (n - digits.len()) as nat);
        let v = digits_value(digits);
        let p = pow10((n - digits.len()) as nat) as int;
        assert(v * p >= v) by (nonlinear_arith)
            requires
                v >= 0,
                p >= 1,
        ;
    }
}

/// Takes the value of a mantissa of the shape given, multiplied by the power
/// of ten of the exponent given, in ten-thousandths; nothing where that
/// exceeds `MAX_COMPONENT`.
fn scale_digits(
    body: &[char],
    w: usize,
    fs: usize,
    fe: usize,
    negative: bool,
    e: u128,
    Ghost(shift): Ghost<int>,
) -> (r: Option<i32>)
    requires
        shape(body@, w as int, fs as int, fe as int),
        e == capped_magnitude(shift),
        negative ==> shift <= 0,
        !negative ==> shift >= 0,
    ensures
        r == ({
            let v = scaled(shape_digits(body@, w as int, fs as int, fe as int), w + shift + 4);
            if v <= MAX_COMPONENT {
                Some(v as i32)
            } else {
                None
            }
        }),
{
    let ghost digits = shape_digits(body@, w as int, fs as int, fe as int);
    let ghost target = w + shift + 4;
    proof {
        assert forall|i: int| 0 <= i < digits.len() implies is_digit(#[trigger] digits[i]) by {
            if i < w {
                assert(digits[i] == body@[i]);
            } else {
                assert(digits[i] == body@[fs + (i - w)]);
            }
        }
    }
    let len: u128 = w as u128 + (fe - fs) as u128;
    let count: u128 = if negative {
        if e >= w as u128 + 4 {
            return Some(0);
        }
        w as u128 + 4 - e
    } else {
        w as u128 + 4 + e
    };
    assert(count <= target);
    assert(count < target ==> count > len + 6);
    let take: usize = if count <= len {
        count as usize
    } else {
        w + (fe - fs)
    };
    let mut v: u32 = 0;
    let mut i: usize = 0;
    assert(digits.take(0) =~= Seq::<char>::empty());
    while i < take
        invariant
            shape(body@, w as int, fs as int, fe as int),
            digits == shape_digits(body@, w as int, fs as int, fe as int),
            all_digits(digits),
            i <= take <= digits.len(),
            take <= target,
            target == w + shift + 4,
            v == digits_value(digits.take(i as int)),
            v <= 500_000,
        decreases take - i,
    {
        let c = if i < w {
            body[i]
        } else {
            body[fs + (i - w)]
        };
        assert(c == digits[i as int]);
        let d: u32 = c as u32 - 48;
        proof {
            assert(digits.take(i as int + 1).drop_last() =~= digits.take(i as int));
            assert(is_digit(digits[i as int]));
        }
        if v * 10 + d > 500_000 {
            proof {
                lemma_scaled_lower(digits, target, i as int + 1);
            }
            return None;
        }
        v = v * 10 + d;
        i += 1;
    }
    if count <= len {
        assert(target == count);
        return Some(v as i32);
    }
    assert(digits.take(digits.len() as int) =~= digits);
    let ghost zeros = (target - digits.len()) as nat;
    if v == 0 {
        assert(0 * pow10(zeros) == 0) by (nonlinear_arith);
        return Some(0);
    }
    let extra: u128 = count - len;
    let mut t: u32 = 0;
    while t < 6 && (t as u128) < extra
        invariant
            t <= 6,
            t <= extra,
            extra <= zeros,
            digits == shape_digits(body@, w as int, fs as int, fe as int),
            target == w + shift + 4,
            target > digits.len(),
            zeros == target - digits.len(),
            v == digits_value(digits) * pow10(t as nat),
            1 <= v <= 500_000,
            digits_value(digits) >= 1,
        decreases 6 - t,
    {
        proof {
            lemma_pow10_grows((t + 1) as nat, zeros);
            let base = digits_value(digits);
            let small = pow10((t + 1) as nat) as int;
            let large = pow10(zeros) as int;
            assert(base * large >= base * small) by (nonlinear_arith)
                requires
                    base >= 0,
                    large >= small,
            ;
            assert(base * small == 10 * (base * pow10(t as nat))) by (nonlinear_arith)
                requires
                    small == 10 * pow10(t as nat),
            ;
        }
        if v * 10 > 500_000 {
            return None;
        }
        v = v * 10;
        t += 1;
    }
    proof {
        if (t as u128) < extra {
            lemma_pow10_grows(0, 0);
            assert(pow10(6) == 1_000_000) by {
                reveal_with_fuel(pow10, 7);
            }
            let base = digits_value(digits);
            assert(base * 1_000_000 >= 1_000_000) by (nonlinear_arith)
                requires
                    base >= 1,
            ;
        }
    }
    Some(v as i32)
}

/// Reads an unsigned decimal; `None` where it is malformed or exceeds
/// `MAX_COMPONENT` ten-thousandths.
fn parse_unsigned(body: &[char]) -> (r: Option<i32>)
    ensures
        r == match unsigned_component(body@) {
            Some(v) => if v <= MAX_COMPONENT {
                Some(v as i32)
            } else {
                None
            },
            None => None,
        },
{
    let (w, fs, fe) = match scan_mantissa(body) {
        Some(found) => found,
        None => {
            return None;
        },
    };
    proof {
        lemma_shape_valid(body@, w as int, fs as int, fe as int);
        assert(shape_digits(body@, w as int, fs as int, fe as int) == whole_part(
            mantissa_of(body@),
        ) + fraction_part(mantissa_of(body@)));
    }
    let (negative, e) = match scan_exponent(body, fe) {
        Some(found) => found,
        None => {
            return None;
        },
    };
    scale_digits(body, w, fs, fe, negative, e, Ghost(shift_of(body@).unwrap()))
}

/// Reads a vector component from a field.
pub fn parse_component(tok: &[char]) -> (r: Option<i32>)
    ensures
        r == component_of(tok@),
{
    let n = tok.len();
    if n > 0 && tok[0] == '-' {
        let body = slice_subrange(tok, 1, n);
        assert(body@ =~= tok@.skip(1));
        proof {
            lemma_unsigned_nonnegative(body@);
        }
        match parse_unsigned(body) {
            Some(v) => Some(-v),
            None => None,
        }
    } else if n > 0 && tok[0] == '+' {
        let body = slice_subrange(tok, 1, n);
        assert(body@ =~= tok@.skip(1));
        proof {
            lemma_unsigned_nonnegative(body@);
        }
        parse_unsigned(body)
    } else {
        proof {
            lemma_unsigned_nonnegative(tok@);
        }
        parse_unsigned(tok)
    }
}

proof fn lemma_unsigned_nonnegative(body: Seq<char>)
    ensures
        unsigned_component(body) matches Some(v) ==> v >= 0,
{
    if unsigned_component(body) is Some {
        let m = mantissa_of(body);
        let digits = whole_part(m) + fraction_part(m);
        assert forall|i: int| 0 <= i < digits.len() implies is_digit(#[trigger] digits[i]) by {
            if i < whole_part(m).len() {
                assert(digits[i] == whole_part(m)[i]);
            } else {
                assert(digits[i] == fraction_part(m)[i - whole_part(m).len()]);
            }
        }
        let n = whole_part(m).len() + shift_of(body).unwrap() + 4;
        if n >= 0 {
            lemma_scaled_lower(digits, n, 0);
        }
    }
}

/// The character of a decimal digit.
pub open spec fn digit_char(d: int) -> char {
    ((48 + d) as u8) as char
}

/// A number written in decimal digits, without leading zeros.
pub open spec fn decimal_text(n: nat) -> Seq<char>
    decreases n,
{
    if n < 10 {
        seq![digit_char(n as int)]
    } else {
        decimal_text(n / 10).push(digit_char((n % 10) as int))
    }
}

/// A text without the plus sign that it may begin with.
pub open spec fn without_plus(s: Seq<char>) -> Seq<char> {
    if s.len() > 0 && s[0] == '+' {
        s.skip(1)
    } else {
        s
    }
}

/// The index that a text stands for: decimal digits, optionally after a plus
/// sign, that name a number within the machine's range.
pub open spec fn index_of_text(s: Seq<char>) -> Option<usize> {
    let body = without_plus(s);
    if body.len() > 0 && all_digits(body) && digits_value(body) <= usize::MAX {
        Some(digits_value(body) as usize)
    } else {
        None
    }
}

/// Writes a number in decimal digits.
pub fn decimal(n: usize) -> (digits: Vec<char>)
    ensures
        digits@ == decimal_text(n as nat),
{
    let mut low: Vec<char> = Vec::new();
    let mut rest: usize = n;
    while rest >= 10
        invariant
            decimal_text(n as nat) == decimal_text(rest as nat) + low@.reverse(),
        decreases rest,
    {
        let d: u8 = (rest % 10) as u8;
        let ghost before = low@;
        low.push((48 + d) as char);
        proof {
            assert(low@.reverse() =~= seq![digit_char((rest % 10) as int)] + before.reverse());
            assert(decimal_text(rest as nat) == decimal_text((rest / 10) as nat).push(
                digit_char((rest % 10) as int),
            ));
            assert(decimal_text(rest as nat) + before.reverse() =~= decimal_text(
                (rest / 10) as nat,
            ) + low@.reverse());
        }
        rest = rest / 10;
    }
    let d: u8 = rest as u8;
    let mut digits: Vec<char> = Vec::new();
    digits.push((48 + d) as char);
    let mut i: usize = low.len();
    assert(low@.reverse().take(0) =~= Seq::<char>::empty());
    while i > 0
        invariant
            i <= low.len(),
            digits@ == decimal_text(rest as nat) + low@.reverse().take(low.len() - i),
        decreases i,
    {
        i -= 1;
        let ghost before = digits@;
        digits.push(low[i]);
        proof {
            let r = low@.reverse();
            assert(r.take(low.len() - i) =~= r.take(low.len() - i - 1).push(r[low.len() - i - 1]));
            assert(r[low.len() - i - 1] == low@[i as int]);
        }
    }
    assert(low@.reverse().take(low.len() as int) =~= low@.reverse());
    digits
}

/// Reads an index from a text.
pub fn parse_index(s: &[char]) -> (r: Option<usize>)
    ensures
        r == index_of_text(s@),
{
    let n = s.len();
    let start: usize = if n > 0 && s[0] == '+' {
        1
    } else {
        0
    };
    let ghost body = without_plus(s@);
    assert(body =~= s@.skip(start as int));
    if start == n {
        return None;
    }
    let mut value: usize = 0;
    let mut k: usize = start;
    assert(body.take(0) =~= Seq::<char>::empty());
    while k < n
        invariant
            n == s.len(),
            start <= k <= n,
            body == s@.skip(start as int),
            body == without_plus(s@),
            all_digits(body.take(k - start)),
            value == digits_value(body.take(k - start)),
        decreases n - k,
    {
        if !is_digit_char(s[k]) {
            assert(!is_digit(body[k - start]));
            return None;
        }
        let d: usize = (s[k] as u32 - 48) as usize;
        proof {
            assert(body.take(k - start + 1).drop_last() =~= body.take(k - start));
            assert(body.take(k - start + 1).last() == s@[k as int]);
            assert forall|i: int| 0 <= i < k - start + 1 implies is_digit(
                #[trigger] body.take(k - start + 1)[i],
            ) by {
                if i < k - start {
                    assert(body.take(k - start)[i] == body[i]);
                }
            }
        }
        if value > (usize::MAX - d) / 10 {
            proof {
                if all_digits(body) {
                    lemma_digits_prefix(body, k - start + 1);
                }
            }
            return None;
        }
        value = value * 10 + d;
        k += 1;
    }
    assert(body.take(body.len() as int) =~= body);
    Some(value)
}

} // verus!
