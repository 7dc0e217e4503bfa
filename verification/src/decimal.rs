//! Numbers as text: whole numbers in decimal, and fixed-point numbers with a
//! given count of digits after the point.

use vstd::prelude::*;
use vstd::string::*;

verus! {

/// The character of a decimal digit.
pub open spec fn digit_char(d: int) -> char {
    if d == 0 {
        '0'
    } else if d == 1 {
        '1'
    } else if d == 2 {
        '2'
    } else if d == 3 {
        '3'
    } else if d == 4 {
        '4'
    } else if d == 5 {
        '5'
    } else if d == 6 {
        '6'
    } else if d == 7 {
        '7'
    } else if d == 8 {
        '8'
    } else {
        '9'
    }
}

/// A number that is not negative, in decimal, without leading zeros.
pub open spec fn digits_text(v: nat) -> Seq<char>
    decreases v,
{
    if v < 10 {
        seq![digit_char(v as int)]
    } else {
        digits_text(v / 10).push(digit_char((v % 10) as int))
    }
}

/// A whole number in decimal, with a minus sign where it is negative.
pub open spec fn decimal_text(v: int) -> Seq<char> {
    if v < 0 {
        seq!['-'] + digits_text((-v) as nat)
    } else {
        digits_text(v as nat)
    }
}

/// The last `places` decimal digits of a number, with leading zeros.
pub open spec fn padded_text(v: nat, places: nat) -> Seq<char>
    decreases places,
{
    if places == 0 {
        Seq::empty()
    } else {
        padded_text(v / 10, (places - 1) as nat).push(digit_char((v % 10) as int))
    }
}

/// Ten to the power `places`.
pub open spec fn power_of_ten(places: nat) -> nat
    decreases places,
{
    if places == 0 {
        1
    } else {
        10 * power_of_ten((places - 1) as nat)
    }
}

/// The digits of `v / 10^places` after the point, up to the last that is
/// not zero. A number without a fraction has none.
pub open spec fn fraction_text(v: nat, places: nat) -> Seq<char>
    decreases places,
{
    if places == 0 {
        Seq::empty()
    } else if v % 10 == 0 {
        fraction_text(v / 10, (places - 1) as nat)
    } else {
        padded_text(v, places)
    }
}

/// The number `v / 10^places` in its shortest decimal form: a minus sign
/// where `v` is negative, the whole part, and where the fraction is not zero
/// a point and the digits of the fraction up to the last that is not zero. So
/// 0 is written `0`, and 12500 thousandths are written `12.5`.
pub open spec fn fixed_text(v: int, places: nat) -> Seq<char> {
    let size = if v < 0 {
        (-v) as nat
    } else {
        v as nat
    };
    let sign = if v < 0 {
        seq!['-']
    } else {
        Seq::<char>::empty()
    };
    sign + digits_text(size / power_of_ten(places)) + if size % power_of_ten(places) == 0 {
        Seq::<char>::empty()
    } else {
        seq!['.'] + fraction_text(size, places)
    }
}

/// `k` zeros.
pub open spec fn zeros_text(k: nat) -> Seq<char> {
    Seq::new(k, |i: int| '0')
}

/// The digits after the point are those of the number, less the zeros at
/// their end: there are none exactly where the fraction is zero, the last of
/// them is not a zero, and with the zeros put back they are all `places`
/// digits of the fraction.
pub proof fn lemma_fraction_text(v: nat, places: nat)
    ensures
        power_of_ten(places) > 0,
        fraction_text(v, places).len() <= places,
        fraction_text(v, places).len() == 0 <==> v % power_of_ten(places) == 0,
        fraction_text(v, places).len() > 0 ==> fraction_text(v, places).last() != '0',
        padded_text(v, places) == fraction_text(v, places) + zeros_text(
            (places - fraction_text(v, places).len()) as nat,
        ),
    decreases places,
{
    if places == 0 {
        assert(power_of_ten(0) == 1);
        assert(padded_text(v, 0) =~= fraction_text(v, 0) + zeros_text(0));
    } else {
        let less = (places - 1) as nat;
        let p = power_of_ten(less);
        lemma_fraction_text(v / 10, less);
        lemma_padded_len(v, places);
        assert(power_of_ten(places) == 10 * p);
        if v % 10 == 0 {
            vstd::arithmetic::div_mod::lemma_fundamental_div_mod(v as int, 10);
            vstd::arithmetic::div_mod::lemma_truncate_middle((v / 10) as int, 10, p as int);
            assert(v == 10 * (v / 10));
            assert((10 * (v / 10)) % (10 * p) == 10 * ((v / 10) % p));
            let short = fraction_text(v / 10, less);
            assert(padded_text(v, places) =~= short + zeros_text((places - short.len()) as nat)) by {
                assert(padded_text(v, places) == padded_text(v / 10, less).push('0'));
                assert((short + zeros_text((less - short.len()) as nat)).push('0') =~= short + zeros_text(
                    (places - short.len()) as nat,
                ));
            }
        } else {
            vstd::arithmetic::div_mod::lemma_mod_mod(v as int, 10, p as int);
            assert((v % (10 * p)) % 10 == v % 10);
            assert(padded_text(v, places).last() == digit_char((v % 10) as int));
            assert(padded_text(v, places) =~= padded_text(v, places) + zeros_text(0));
        }
    }
}

proof fn lemma_padded_len(v: nat, places: nat)
    ensures
        padded_text(v, places).len() == places,
    decreases places,
{
    if places > 0 {
        lemma_padded_len(v / 10, (places - 1) as nat);
    }
}

/// The text of a decimal digit.
fn digit_str(d: u8) -> (s: &'static str)
    requires
        d < 10,
    ensures
        s@ == seq![digit_char(d as int)],
{
    proof {
        reveal_strlit("0");
        reveal_strlit("1");
        reveal_strlit("2");
        reveal_strlit("3");
        reveal_strlit("4");
        reveal_strlit("5");
        reveal_strlit("6");
        reveal_strlit("7");
        reveal_strlit("8");
        reveal_strlit("9");
    }
    let s = if d == 0 {
        "0"
    } else if d == 1 {
        "1"
    } else if d == 2 {
        "2"
    } else if d == 3 {
        "3"
    } else if d == 4 {
        "4"
    } else if d == 5 {
        "5"
    } else if d == 6 {
        "6"
    } else if d == 7 {
        "7"
    } else if d == 8 {
        "8"
    } else {
        "9"
    };
    assert(s@ =~= seq![digit_char(d as int)]);
    s
}

/// Writes a number that is not negative.
pub fn push_nat(out: &mut String, v: u128)
    ensures
        final(out)@ == old(out)@ + digits_text(v as nat),
    decreases v,
{
    if v >= 10 {
        push_nat(out, v / 10);
    }
    out.append(digit_str((v % 10) as u8));
    assert(out@ =~= old(out)@ + digits_text(v as nat));
}

/// How far a number is from zero.
pub fn size_of(v: i64) -> (m: u64)
    ensures
        m == if v < 0 {
            -v
        } else {
            v as int
        },
{
    if v < 0 {
        (-(v as i128)) as u64
    } else {
        v as u64
    }
}

/// Writes a whole number.
pub fn push_int(out: &mut String, v: i64)
    ensures
        final(out)@ == old(out)@ + decimal_text(v as int),
{
    if v < 0 {
        proof {
            reveal_strlit("-");
        }
        out.append("-");
    }
    push_nat(out, size_of(v) as u128);
    assert(out@ =~= old(out)@ + decimal_text(v as int));
}

/// Writes the last `places` digits of a number, with leading zeros.
pub fn push_padded(out: &mut String, v: u64, places: u32)
    ensures
        final(out)@ == old(out)@ + padded_text(v as nat, places as nat),
    decreases places,
{
    if places > 0 {
        push_padded(out, v / 10, places - 1);
        out.append(digit_str((v % 10) as u8));
    }
    assert(out@ =~= old(out)@ + padded_text(v as nat, places as nat));
}

/// Writes the digits of `v / 10^places` after the point, up to the last
/// that is not zero.
pub fn push_fraction(out: &mut String, v: u64, places: u32)
    ensures
        final(out)@ == old(out)@ + fraction_text(v as nat, places as nat),
    decreases places,
{
    if places > 0 {
        if v % 10 == 0 {
            push_fraction(out, v / 10, places - 1);
        } else {
            push_padded(out, v, places);
        }
    }
    assert(out@ =~= old(out)@ + fraction_text(v as nat, places as nat));
}

/// Writes `v / 10^places`, for `v` that is not negative, in its shortest
/// decimal form: see `fixed_text`.
pub fn push_fixed_size(out: &mut String, size: u64, places: u32)
    ensures
        final(out)@ == old(out)@ + fixed_text(size as int, places as nat),
{
    let mut whole: u64 = size;
    let mut k: u32 = 0;
    assert(power_of_ten(0) == 1);
    while k < places
        invariant
            k <= places,
            whole == size as nat / power_of_ten(k as nat),
            power_of_ten(k as nat) > 0,
        decreases places - k,
    {
        proof {
            lemma_divide_again(size as nat, power_of_ten(k as nat));
            assert(power_of_ten((k + 1) as nat) == 10 * power_of_ten(k as nat));
        }
        whole = whole / 10;
        k += 1;
    }
    push_nat(out, whole as u128);
    let mut fraction = String::new();
    push_fraction(&mut fraction, size, places);
    proof {
        lemma_fraction_text(size as nat, places as nat);
        assert(fraction@ =~= fraction_text(size as nat, places as nat));
    }
    if !fraction.as_str().is_empty() {
        proof {
            reveal_strlit(".");
        }
        out.append(".");
        out.append(fraction.as_str());
    }
    assert(out@ =~= old(out)@ + fixed_text(size as int, places as nat));
}

/// Writes `v / 10^places` in its shortest decimal form: see `fixed_text`.
pub fn push_fixed(out: &mut String, v: i64, places: u32)
    ensures
        final(out)@ == old(out)@ + fixed_text(v as int, places as nat),
{
    if v < 0 {
        proof {
            reveal_strlit("-");
        }
        out.append("-");
    }
    push_fixed_size(out, size_of(v), places);
    assert(out@ =~= old(out)@ + fixed_text(v as int, places as nat));
}

proof fn lemma_divide_again(v: nat, p: nat)
    requires
        p > 0,
    ensures
        (v / p) / 10 == v / (10 * p),
        10 * p > 0,
{
    vstd::arithmetic::div_mod::lemma_div_denominator(v as int, p as int, 10);
    assert(p * 10 == 10 * p) by (nonlinear_arith);
}

} // verus!
