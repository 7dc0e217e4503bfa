//! Heights as they are written in tags.
//!
//! A height is a number in decimal: a sign or none; digits with a point or
//! none among, before or after them; and an exponent or none, which is an
//! `e` or `E`, a sign or none, and digits. There is at least one digit
//! before the exponent. Nothing else is a height: a blank anywhere makes a
//! text none, and so do the words for infinity and for what is no number. A
//! height is kept in hundredths, further digits are cut off, and a height
//! beyond what 64 bits hold counts as the largest that they hold.

use crate::decimal::power_of_ten;
use vstd::prelude::*;

verus! {

/// The largest height that is told apart, in hundredths.
pub const HEIGHT_LIMIT: i64 = 0x7fff_ffff_ffff_ffff;

/// Whether a byte is a decimal digit.
pub open spec fn is_digit(b: u8) -> bool {
    48 <= b <= 57
}

/// The number that a run of digits writes.
pub open spec fn digits_value(s: Seq<u8>) -> int
    decreases s.len(),
{
    if s.len() == 0 {
        0
    } else {
        digits_value(s.drop_last()) * 10 + (s.last() - 48)
    }
}

/// Whether every byte is a decimal digit.
pub open spec fn all_digits(s: Seq<u8>) -> bool {
    forall|i: int| 0 <= i < s.len() ==> is_digit(#[trigger] s[i])
}

/// Whether a byte is a sign.
pub open spec fn is_sign(b: u8) -> bool {
    b == 43 || b == 45
}

/// Where the digits start: after a sign, if there is one.
pub open spec fn start_of(s: Seq<u8>) -> int {
    if s.len() > 0 && is_sign(s[0]) {
        1
    } else {
        0
    }
}

/// The first place from `i` on and before `end` that holds `a` or `b`, or
/// `end` where there is none.
pub open spec fn find_from(s: Seq<u8>, i: int, end: int, a: u8, b: u8) -> int
    decreases end - i,
{
    if i >= end {
        end
    } else if s[i] == a || s[i] == b {
        i
    } else {
        find_from(s, i + 1, end, a, b)
    }
}

/// Where the exponent starts: the place of the first `e` or `E`, or the
/// length where there is none.
pub open spec fn mantissa_end(s: Seq<u8>) -> int {
    find_from(s, start_of(s), s.len() as int, 101, 69)
}

/// The place of the point, or the end of the mantissa where there is none.
pub open spec fn point_of(s: Seq<u8>) -> int {
    find_from(s, start_of(s), mantissa_end(s), 46, 46)
}

/// The digits before the point.
pub open spec fn whole_part(s: Seq<u8>) -> Seq<u8> {
    s.subrange(start_of(s), point_of(s))
}

/// The digits after the point.
pub open spec fn fraction_part(s: Seq<u8>) -> Seq<u8> {
    if point_of(s) < mantissa_end(s) {
        s.subrange(point_of(s) + 1, mantissa_end(s))
    } else {
        Seq::empty()
    }
}

/// Whether the text has an exponent.
pub open spec fn has_exponent(s: Seq<u8>) -> bool {
    mantissa_end(s) < s.len()
}

/// Where the digits of the exponent start: after the `e` and a sign, if
/// there is one.
pub open spec fn exponent_start(s: Seq<u8>) -> int {
    let after = mantissa_end(s) + 1;
    if after < s.len() && is_sign(s[after]) {
        after + 1
    } else {
        after
    }
}

/// The digits of the exponent.
pub open spec fn exponent_digits(s: Seq<u8>) -> Seq<u8> {
    if has_exponent(s) {
        s.subrange(exponent_start(s), s.len() as int)
    } else {
        Seq::empty()
    }
}

/// Whether the exponent is negative.
pub open spec fn exponent_negative(s: Seq<u8>) -> bool {
    has_exponent(s) && mantissa_end(s) + 1 < s.len() && s[mantissa_end(s) + 1] == 45
}

/// The exponent; zero where the text has none.
pub open spec fn exponent_of(s: Seq<u8>) -> int {
    if exponent_negative(s) {
        -digits_value(exponent_digits(s))
    } else {
        digits_value(exponent_digits(s))
    }
}

/// Whether a text writes a height: its mantissa is digits with at most one
/// point and at least one digit, and its exponent, if it has one, has digits
/// and nothing but digits.
pub open spec fn is_height(s: Seq<u8>) -> bool {
    &&& all_digits(whole_part(s))
    &&& all_digits(fraction_part(s))
    &&& whole_part(s).len() + fraction_part(s).len() >= 1
    &&& has_exponent(s) ==> exponent_digits(s).len() >= 1 && all_digits(exponent_digits(s))
}

/// The number that the first `keep` of a run of digits write, with zeros for
/// the digits that the run is short of.
pub open spec fn scaled(d: Seq<u8>, keep: int) -> int {
    if keep <= 0 {
        0
    } else if keep <= d.len() {
        digits_value(d.take(keep))
    } else {
        digits_value(d) * power_of_ten((keep - d.len()) as nat)
    }
}

/// The size of a height in hundredths: the digits of the mantissa down to
/// the hundredths, which the exponent moves.
pub open spec fn size_in_hundredths(s: Seq<u8>) -> int {
    scaled(whole_part(s) + fraction_part(s), whole_part(s).len() + 2 + exponent_of(s))
}

/// The height in hundredths that a text gives, where it gives one. Digits
/// below the hundredths are cut off, and a height beyond `HEIGHT_LIMIT`
/// counts as that.
pub open spec fn hundredths_of(s: Seq<u8>) -> Option<int> {
    if is_height(s) {
        let size = if size_in_hundredths(s) > HEIGHT_LIMIT {
            HEIGHT_LIMIT as int
        } else {
            size_in_hundredths(s)
        };
        if s[0] == 45 {
            Some(-size)
        } else {
            Some(size)
        }
    } else {
        None
    }
}

/// A number cut down to a cap.
pub open spec fn capped(v: int, cap: int) -> int {
    if v >= cap {
        cap
    } else {
        v
    }
}

proof fn lemma_digits_grow(s: Seq<u8>)
    requires
        all_digits(s),
    ensures
        digits_value(s) >= 0,
        s.len() > 0 ==> digits_value(s) >= digits_value(s.drop_last()),
    decreases s.len(),
{
    if s.len() > 0 {
        let init = s.drop_last();
        assert(is_digit(s[s.len() - 1]));
        assert forall|i: int| 0 <= i < init.len() implies is_digit(#[trigger] init[i]) by {
            assert(init[i] == s[i]);
        }
        lemma_digits_grow(init);
    }
}

proof fn lemma_power_grows(a: nat, b: nat)
    requires
        a <= b,
    ensures
        0 < power_of_ten(a) <= power_of_ten(b),
        b >= 19 ==> power_of_ten(b) >= 10_000_000_000_000_000_000,
    decreases b,
{
    if b == 0 {
    } else if a == b {
        lemma_power_grows((a - 1) as nat, (b - 1) as nat);
        if b == 19 {
            reveal_with_fuel(power_of_ten, 20);
        }
    } else {
        lemma_power_grows(a, (b - 1) as nat);
        if b == 19 {
            reveal_with_fuel(power_of_ten, 20);
        }
    }
}

/// Far enough beyond its digits, a number is nothing or beyond every cap of
/// 63 bits, wherever it is cut.
proof fn lemma_scaled_far(d: Seq<u8>, a: int, b: int)
    requires
        all_digits(d),
        d.len() + 19 <= a <= b,
    ensures
        capped(scaled(d, a), 0x8000_0000_0000_0000) == capped(scaled(d, b), 0x8000_0000_0000_0000),
{
    lemma_digits_grow(d);
    let v = digits_value(d);
    let pa = power_of_ten((a - d.len()) as nat);
    let pb = power_of_ten((b - d.len()) as nat);
    lemma_power_grows((a - d.len()) as nat, (b - d.len()) as nat);
    lemma_power_grows((a - d.len()) as nat, (a - d.len()) as nat);
    if v > 0 {
        assert(v * pa >= 0x8000_0000_0000_0000 && v * pb >= 0x8000_0000_0000_0000) by (nonlinear_arith)
            requires
                v >= 1,
                pa >= 10_000_000_000_000_000_000,
                pb >= 10_000_000_000_000_000_000,
        ;
    } else {
        assert(v * pa == 0 && v * pb == 0) by (nonlinear_arith)
            requires
                v == 0,
        ;
    }
}

/// The first place from `i` on and before `end` that holds `a` or `b`.
fn find(s: &[u8], i: usize, end: usize, a: u8, b: u8) -> (r: usize)
    requires
        i <= end <= s.len(),
    ensures
        r == find_from(s@, i as int, end as int, a, b),
        i <= r <= end,
{
    let mut k: usize = i;
    while k < end && s[k] != a && s[k] != b
        invariant
            i <= k <= end <= s.len(),
            find_from(s@, i as int, end as int, a, b) == find_from(s@, k as int, end as int, a, b),
        decreases end - k,
    {
        k += 1;
    }
    k
}

/// Whether the bytes from `from` to `to` are digits.
fn check_digits(s: &[u8], from: usize, to: usize) -> (r: bool)
    requires
        from <= to <= s.len(),
    ensures
        r == all_digits(s@.subrange(from as int, to as int)),
{
    let ghost part = s@.subrange(from as int, to as int);
    let mut k: usize = from;
    while k < to
        invariant
            from <= k <= to <= s.len(),
            part == s@.subrange(from as int, to as int),
            forall|j: int| 0 <= j < k - from ==> is_digit(#[trigger] part[j]),
        decreases to - k,
    {
        assert(part[k - from] == s@[k as int]);
        if s[k] < 48 || s[k] > 57 {
            return false;
        }
        k += 1;
    }
    true
}

/// Takes the digits from `from` to `to` into a number that stands for the
/// digits `before`, cut down to `cap`.
fn extend_value(acc: u128, s: &[u8], from: usize, to: usize, cap: u128, Ghost(before): Ghost<Seq<u8>>) -> (r:
    u128)
    requires
        from <= to <= s.len(),
        cap <= 0x1_0000_0000_0000_0000_0000_0000,
        all_digits(before),
        all_digits(s@.subrange(from as int, to as int)),
        acc == capped(digits_value(before), cap as int),
    ensures
        r == capped(digits_value(before + s@.subrange(from as int, to as int)), cap as int),
        all_digits(before + s@.subrange(from as int, to as int)),
{
    let ghost part = s@.subrange(from as int, to as int);
    let mut r: u128 = acc;
    let mut k: usize = from;
    assert(before + s@.subrange(from as int, from as int) =~= before);
    while k < to
        invariant
            from <= k <= to <= s.len(),
            cap <= 0x1_0000_0000_0000_0000_0000_0000,
            part == s@.subrange(from as int, to as int),
            all_digits(part),
            all_digits(before),
            all_digits(before + s@.subrange(from as int, k as int)),
            r == capped(digits_value(before + s@.subrange(from as int, k as int)), cap as int),
        decreases to - k,
    {
        let ghost sofar = before + s@.subrange(from as int, k as int);
        let ghost longer = before + s@.subrange(from as int, k + 1);
        proof {
            assert(part[k - from] == s@[k as int]);
            assert(is_digit(s@[k as int]));
            assert(longer.drop_last() =~= sofar);
            assert(longer.last() == s@[k as int]);
            assert forall|j: int| 0 <= j < longer.len() implies is_digit(#[trigger] longer[j]) by {
                if j < sofar.len() {
                    assert(sofar[j] == longer[j]);
                }
            }
            lemma_digits_grow(longer);
            lemma_digits_grow(sofar);
        }
        if r < cap {
            r = r * 10 + (s[k] - 48) as u128;
            if r > cap {
                r = cap;
            }
        }
        k += 1;
    }
    assert(s@.subrange(from as int, to as int) == part);
    r
}

/// A number times ten to the power `extra`, cut down to 63 bits.
fn raise(acc: u128, extra: u128, Ghost(value): Ghost<int>) -> (r: u128)
    requires
        value >= 0,
        acc == capped(value, 0x8000_0000_0000_0000),
    ensures
        r == capped(value * power_of_ten(extra as nat), 0x8000_0000_0000_0000),
{
    let mut r: u128 = acc;
    let mut j: u128 = 0;
    proof {
        assert(power_of_ten(0) == 1);
        assert(value * 1 == value);
    }
    while j < extra && r != 0 && r < 0x8000_0000_0000_0000
        invariant
            j <= extra,
            value >= 0,
            r <= 0x8000_0000_0000_0000,
            r == capped(value * power_of_ten(j as nat), 0x8000_0000_0000_0000),
        decreases extra - j,
    {
        proof {
            let p = power_of_ten(j as nat);
            assert(power_of_ten((j + 1) as nat) == 10 * p);
            assert(value * (10 * p) == 10 * (value * p)) by (nonlinear_arith);
        }
        r = r * 10;
        if r > 0x8000_0000_0000_0000 {
            r = 0x8000_0000_0000_0000;
        }
        j += 1;
    }
    proof {
        if j < extra {
            let pj = power_of_ten(j as nat);
            let pe = power_of_ten(extra as nat);
            lemma_power_grows(j as nat, extra as nat);
            if r == 0 {
                assert(value == 0) by (nonlinear_arith)
                    requires
                        value * pj == 0,
                        pj > 0,
                        value >= 0,
                ;
                assert(value * pe == 0) by (nonlinear_arith)
                    requires
                        value == 0,
                ;
            } else {
                assert(value * pe >= value * pj) by (nonlinear_arith)
                    requires
                        value >= 0,
                        pe >= pj,
                ;
            }
        }
    }
    r
}

/// The number that the first `keep` digits of a mantissa write, with zeros
/// for the digits that it is short of, cut down to 63 bits. The digits
/// before the point stand from `start` to `point`, those after it from
/// `first` to `end`.
fn scale(s: &[u8], start: usize, point: usize, first: usize, end: usize, keep: u128) -> (r: u128)
    requires
        start <= point <= first <= end <= s.len(),
        all_digits(s@.subrange(start as int, point as int)),
        all_digits(s@.subrange(first as int, end as int)),
        keep >= 1,
    ensures
        r == capped(
            scaled(
                s@.subrange(start as int, point as int) + s@.subrange(first as int, end as int),
                keep as int,
            ),
            0x8000_0000_0000_0000,
        ),
{
    let ghost whole = s@.subrange(start as int, point as int);
    let ghost fraction = s@.subrange(first as int, end as int);
    let ghost all = whole + fraction;
    let whole_len = point - start;
    let fraction_len = end - first;
    let c1: usize = if keep < whole_len as u128 {
        keep as usize
    } else {
        whole_len
    };
    let rest: u128 = keep - c1 as u128;
    let c2: usize = if rest < fraction_len as u128 {
        rest as usize
    } else {
        fraction_len
    };
    proof {
        assert(s@.subrange(start as int, start + c1) =~= whole.take(c1 as int));
        assert(s@.subrange(first as int, first + c2) =~= fraction.take(c2 as int));
        assert forall|j: int| 0 <= j < c1 implies is_digit(#[trigger] whole.take(c1 as int)[j]) by {
            assert(whole[j] == whole.take(c1 as int)[j]);
        }
        assert forall|j: int| 0 <= j < c2 implies is_digit(#[trigger] fraction.take(c2 as int)[j]) by {
            assert(fraction[j] == fraction.take(c2 as int)[j]);
        }
        assert(digits_value(Seq::<u8>::empty()) == 0);
        assert(Seq::<u8>::empty() + whole.take(c1 as int) =~= whole.take(c1 as int));
    }
    let a = extend_value(0, s, start, start + c1, 0x8000_0000_0000_0000, Ghost(Seq::empty()));
    let b = extend_value(a, s, first, first + c2, 0x8000_0000_0000_0000, Ghost(whole.take(c1 as int)));
    let ghost taken = whole.take(c1 as int) + fraction.take(c2 as int);
    if keep <= c1 as u128 + c2 as u128 {
        proof {
            if keep <= whole_len {
                assert(taken =~= all.take(keep as int));
            } else {
                assert(whole.take(c1 as int) =~= whole);
                assert(taken =~= all.take(keep as int));
            }
        }
        b
    } else {
        proof {
            assert(whole.take(c1 as int) =~= whole);
            assert(fraction.take(c2 as int) =~= fraction);
            assert(taken =~= all);
            lemma_digits_grow(all);
        }
        raise(b, keep - (c1 as u128 + c2 as u128), Ghost(digits_value(all)))
    }
}

/// Where the parts of a mantissa stand: its digits before the point from
/// `start` to `point`, those after it from `first` to `end`.
struct Mantissa {
    start: usize,
    point: usize,
    first: usize,
    end: usize,
}

/// Finds the parts of the mantissa, where it is one.
fn read_mantissa(s: &[u8]) -> (r: Option<Mantissa>)
    ensures
        r.is_some() == (all_digits(whole_part(s@)) && all_digits(fraction_part(s@)) && whole_part(
            s@,
        ).len() + fraction_part(s@).len() >= 1),
        match r {
            Some(m) => {
                &&& m.start <= m.point <= m.first <= m.end <= s.len()
                &&& m.end == mantissa_end(s@)
                &&& whole_part(s@) == s@.subrange(m.start as int, m.point as int)
                &&& fraction_part(s@) == s@.subrange(m.first as int, m.end as int)
            },
            None => true,
        },
{
    let n = s.len();
    let start: usize = if n > 0 && (s[0] == 43 || s[0] == 45) {
        1
    } else {
        0
    };
    let end = find(s, start, n, 101, 69);
    let point = find(s, start, end, 46, 46);
    let first: usize = if point < end {
        point + 1
    } else {
        end
    };
    assert(whole_part(s@) == s@.subrange(start as int, point as int));
    assert(fraction_part(s@) =~= s@.subrange(first as int, end as int));
    if !check_digits(s, start, point) || !check_digits(s, first, end) {
        return None;
    }
    if point == start && end == first {
        return None;
    }
    Some(Mantissa { start, point, first, end })
}

/// The cap on what is read of an exponent: more than any text has digits.
pub const EXPONENT_CAP: u128 = 0x40_0000_0000_0000_0000;

/// Reads the exponent that starts at `end`, where it is one or there is
/// none: its size, cut down to `EXPONENT_CAP`, and whether it is negative.
fn read_exponent(s: &[u8], end: usize) -> (r: Option<(u128, bool)>)
    requires
        end == mantissa_end(s@),
        end <= s.len(),
    ensures
        r.is_some() == (has_exponent(s@) ==> exponent_digits(s@).len() >= 1 && all_digits(
            exponent_digits(s@),
        )),
        match r {
            Some((size, down)) => {
                &&& all_digits(exponent_digits(s@))
                &&& size == capped(digits_value(exponent_digits(s@)), EXPONENT_CAP as int)
                &&& down == exponent_negative(s@)
            },
            None => true,
        },
{
    let n = s.len();
    if end >= n {
        assert(exponent_digits(s@) =~= Seq::<u8>::empty());
        assert(digits_value(Seq::<u8>::empty()) == 0);
        return Some((0, false));
    }
    let after = end + 1;
    let down = after < n && s[after] == 45;
    let from: usize = if after < n && (s[after] == 43 || s[after] == 45) {
        after + 1
    } else {
        after
    };
    assert(exponent_digits(s@) == s@.subrange(from as int, n as int));
    if from >= n || !check_digits(s, from, n) {
        return None;
    }
    assert(digits_value(Seq::<u8>::empty()) == 0);
    assert(Seq::<u8>::empty() + s@.subrange(from as int, n as int) =~= s@.subrange(from as int, n as int));
    let size = extend_value(0, s, from, n, EXPONENT_CAP, Ghost(Seq::empty()));
    Some((size, down))
}

proof fn lemma_all_digits_joined(a: Seq<u8>, b: Seq<u8>)
    requires
        all_digits(a),
        all_digits(b),
    ensures
        all_digits(a + b),
{
    assert forall|j: int| 0 <= j < (a + b).len() implies is_digit(#[trigger] (a + b)[j]) by {
        if j < a.len() {
            assert((a + b)[j] == a[j]);
        } else {
            assert((a + b)[j] == b[j - a.len()]);
        }
    }
}

/// The size in hundredths of the height that a mantissa and an exponent
/// write, cut down to 63 bits. `exponent` is the size of the exponent cut
/// down to `EXPONENT_CAP`, `down` tells whether it is negative, and
/// `moved` is the exponent itself.
fn size_of_height(s: &[u8], m: &Mantissa, exponent: u128, down: bool, Ghost(moved): Ghost<int>) -> (r: u128)
    requires
        m.start <= m.point <= m.first <= m.end <= s.len(),
        all_digits(s@.subrange(m.start as int, m.point as int)),
        all_digits(s@.subrange(m.first as int, m.end as int)),
        down ==> moved <= 0,
        !down ==> moved >= 0,
        exponent == capped(if down {
            -moved
        } else {
            moved
        }, EXPONENT_CAP as int),
    ensures
        r == capped(
            scaled(
                s@.subrange(m.start as int, m.point as int) + s@.subrange(m.first as int, m.end as int),
                m.point - m.start + 2 + moved,
            ),
            0x8000_0000_0000_0000,
        ),
{
    let ghost whole = s@.subrange(m.start as int, m.point as int);
    let ghost fraction = s@.subrange(m.first as int, m.end as int);
    let whole_len: u128 = (m.point - m.start) as u128;
    if down {
        if exponent >= whole_len + 2 {
            0
        } else {
            scale(s, m.start, m.point, m.first, m.end, whole_len + 2 - exponent)
        }
    } else {
        let found = scale(s, m.start, m.point, m.first, m.end, whole_len + 2 + exponent);
        proof {
            if exponent == EXPONENT_CAP {
                lemma_all_digits_joined(whole, fraction);
                lemma_scaled_far(whole + fraction, whole_len + 2 + exponent, whole_len + 2 + moved);
            }
        }
        found
    }
}

/// Reads a height in hundredths from the bytes of a text.
pub fn parse_hundredths(s: &[u8]) -> (r: Option<i64>)
    ensures
        match r {
            Some(h) => hundredths_of(s@) == Some(h as int),
            None => hundredths_of(s@).is_none(),
        },
{
    let negative = s.len() > 0 && s[0] == 45;
    let m = match read_mantissa(s) {
        Some(m) => m,
        None => {
            return None;
        },
    };
    let (exponent, down) = match read_exponent(s, m.end) {
        Some(e) => e,
        None => {
            return None;
        },
    };
    proof {
        lemma_digits_grow(exponent_digits(s@));
    }
    let size = size_of_height(s, &m, exponent, down, Ghost(exponent_of(s@)));
    assert(size == capped(size_in_hundredths(s@), 0x8000_0000_0000_0000));
    let height: i64 = if size >= 0x8000_0000_0000_0000 {
        HEIGHT_LIMIT
    } else {
        size as i64
    };
    if negative {
        Some(-height)
    } else {
        Some(height)
    }
}

} // verus!
