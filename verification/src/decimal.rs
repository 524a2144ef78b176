//! Exact decimal numbers of any size.
//!
//! Exponents and numeric constants are held exactly, digit by digit, so that
//! taking one from an exponent never rounds and never overflows.
use crate::digits::{
    all_digits, complement, decrement, digits_of, increment, is_digits, is_numeral,
    lemma_number_bound, lemma_number_concat, lemma_number_injective, lemma_number_leading_zero,
    lemma_number_single, lemma_numeral_injective, lemma_numeral_positive, lemma_pow10_positive,
    number, pow10,
};
use vstd::arithmetic::div_mod::lemma_fundamental_div_mod_converse;
use vstd::prelude::*;
use vstd::std_specs::cmp::PartialEqSpecImpl;

verus! {

/// The value of a decimal number: `units` divided by ten to the power `places`.
pub struct DecimalValue {
    pub units: int,
    pub places: nat,
}

impl DecimalValue {
    /// The integer `n`.
    pub open spec fn integer(n: int) -> DecimalValue {
        DecimalValue { units: n, places: 0 }
    }

    /// Whether this is the writing of its value with the fewest places.
    pub open spec fn is_reduced(self) -> bool {
        self.places == 0 || self.units % 10 != 0
    }

    /// The same value written with the fewest places.
    pub open spec fn reduced(self) -> DecimalValue
        decreases self.places,
    {
        if self.places > 0 && self.units % 10 == 0 {
            DecimalValue { units: self.units / 10, places: (self.places - 1) as nat }.reduced()
        } else {
            self
        }
    }

    /// The value written as the digits `whole`, a point, and the digits `frac`.
    pub open spec fn written(whole: Seq<u8>, frac: Seq<u8>) -> DecimalValue {
        DecimalValue { units: number(whole + frac) as int, places: frac.len() }.reduced()
    }

    /// This value with the other sign.
    pub open spec fn negated(self) -> DecimalValue {
        DecimalValue { units: -self.units, places: self.places }
    }

    /// This value less one.
    pub open spec fn minus_one(self) -> DecimalValue {
        DecimalValue { units: self.units - pow10(self.places), places: self.places }
    }

    /// This value without its sign, in units.
    pub open spec fn magnitude(self) -> nat {
        if self.units < 0 {
            (-self.units) as nat
        } else {
            self.units as nat
        }
    }

    /// What stands before the point: the magnitude, rounded down to an
    /// integer.
    pub open spec fn whole_part(self) -> nat {
        self.magnitude() / pow10(self.places)
    }

    /// What stands after the point, in units.
    pub open spec fn fraction_part(self) -> nat {
        self.magnitude() % pow10(self.places)
    }
}

/// An exact decimal number: a sign, the digits before the point and the
/// digits after it.
#[derive(Debug)]
pub struct Decimal {
    /// Whether the number is below zero.
    negative: bool,
    /// The digits before the point, without a zero in front.
    whole: Vec<u8>,
    /// The digits after the point, without a zero at the end.
    frac: Vec<u8>,
}

impl View for Decimal {
    type V = DecimalValue;

    closed spec fn view(&self) -> DecimalValue {
        let magnitude = number(self.whole@ + self.frac@) as int;
        DecimalValue {
            units: if self.negative {
                -magnitude
            } else {
                magnitude
            },
            places: self.frac@.len(),
        }
    }
}

/// The units of ten to a power of at least one end in zero.
proof fn lemma_pow10_ends_in_zero(n: nat, x: int)
    requires
        n >= 1,
    ensures
        (x * pow10(n)) % 10 == 0,
{
    let p = pow10((n - 1) as nat) as int;
    assert(x * (10 * p) == 10 * (x * p)) by (nonlinear_arith);
}

/// Taking one from a value in the fewest places leaves it in the fewest places.
pub proof fn lemma_minus_one_reduced(v: DecimalValue)
    requires
        v.is_reduced(),
    ensures
        v.minus_one().is_reduced(),
{
    if v.places >= 1 {
        lemma_pow10_ends_in_zero(v.places, 1);
    }
}

/// `reduced` gives the fewest places, and changes nothing where there is
/// nothing to drop.
pub proof fn lemma_reduced(v: DecimalValue)
    ensures
        v.reduced().is_reduced(),
        v.is_reduced() ==> v.reduced() == v,
    decreases v.places,
{
    if v.places > 0 && v.units % 10 == 0 {
        lemma_reduced(DecimalValue { units: v.units / 10, places: (v.places - 1) as nat });
    }
}

/// Every decimal is held in the fewest places, so two decimals have the same
/// value exactly where their views are equal.
pub proof fn lemma_value_is_reduced(d: Decimal)
    requires
        d.well_formed(),
    ensures
        d@.is_reduced(),
{
    if d.frac@.len() >= 1 {
        assert((d.whole@ + d.frac@).last() == d.frac@.last());
    }
}

/// What the digits of a decimal say of its value.
proof fn lemma_parts(d: Decimal)
    requires
        d.well_formed(),
    ensures
        d@.magnitude() == number(d.whole@) * pow10(d.frac@.len()) + number(d.frac@),
        number(d.frac@) < pow10(d.frac@.len()),
        d@.whole_part() == number(d.whole@),
        d@.fraction_part() == number(d.frac@),
        d.negative <==> d@.units < 0,
        d.whole@.len() > 0 ==> number(d.whole@) >= 1,
{
    let p = pow10(d.frac@.len()) as int;
    let w = number(d.whole@) as int;
    let f = number(d.frac@) as int;
    lemma_number_concat(d.whole@, d.frac@);
    lemma_number_bound(d.frac@);
    lemma_pow10_positive(d.frac@.len());
    lemma_fundamental_div_mod_converse(w * p + f, p, w, f);
    if d.whole@.len() > 0 {
        lemma_numeral_positive(d.whole@);
        lemma_pow10_positive((d.whole@.len() - 1) as nat);
        assert(w * p >= p) by (nonlinear_arith)
            requires
                w >= 1,
                p >= 1,
        ;
    } else {
        assert(w * p == 0) by (nonlinear_arith)
            requires
                w == 0,
        ;
    }
}

/// Two decimals of one value are written with the same digits.
proof fn lemma_one_writing(a: Decimal, b: Decimal)
    requires
        a.well_formed(),
        b.well_formed(),
        a@ == b@,
    ensures
        a.negative == b.negative,
        a.whole@ == b.whole@,
        a.frac@ == b.frac@,
{
    lemma_parts(a);
    lemma_parts(b);
    lemma_number_injective(a.frac@, b.frac@);
    lemma_numeral_injective(a.whole@, b.whole@);
}

impl Decimal {
    /// What holds of every decimal: the digits are digits, no zero stands in
    /// front or at the end, and zero has no sign.
    #[verifier::type_invariant]
    pub closed spec fn well_formed(&self) -> bool {
        &&& is_numeral(self.whole@)
        &&& is_digits(self.frac@)
        &&& self.frac@.len() > 0 ==> self.frac@.last() != 0
        &&& self.negative ==> self.whole@.len() > 0 || self.frac@.len() > 0
    }

    /// The integer `n`.
    pub fn from_i64(n: i64) -> (r: Decimal)
        ensures
            r@ == DecimalValue::integer(n as int),
    {
        let negative = n < 0;
        let magnitude: u64 = if negative {
            (-(n as i128)) as u64
        } else {
            n as u64
        };
        let whole = digits_of(magnitude);
        let r = Decimal { negative, whole, frac: Vec::new() };
        assert(r.whole@ + r.frac@ =~= r.whole@);
        r
    }

    /// The number written as the digits `whole`, a point, and the digits
    /// `frac`. Zeros in front of `whole` and at the end of `frac` are dropped.
    pub(crate) fn written(whole: Vec<u8>, frac: Vec<u8>) -> (r: Decimal)
        requires
            is_digits(whole@),
            is_digits(frac@),
        ensures
            r@ == DecimalValue::written(whole@, frac@),
            r@.units >= 0,
    {
        let ghost target = DecimalValue::written(whole@, frac@);
        let mut frac = frac;
        while frac.len() > 0 && frac[frac.len() - 1] == 0
            invariant
                is_digits(frac@),
                DecimalValue::written(whole@, frac@) == target,
            decreases frac.len(),
        {
            let ghost before = frac@;
            frac.pop();
            proof {
                assert((whole@ + before).drop_last() =~= whole@ + frac@);
            }
        }
        let mut skipped: usize = 0;
        assert(whole@.skip(0) =~= whole@);
        while skipped < whole.len() && whole[skipped] == 0
            invariant
                skipped <= whole.len(),
                number(whole@.skip(skipped as int)) == number(whole@),
            decreases whole.len() - skipped,
        {
            proof {
                lemma_number_leading_zero(whole@.skip(skipped as int));
                assert(whole@.skip(skipped as int).drop_first() =~= whole@.skip(skipped + 1));
            }
            skipped = skipped + 1;
        }
        let mut whole = whole;
        let ghost all = whole@;
        let kept = whole.split_off(skipped);
        assert(kept@ =~= all.skip(skipped as int));
        let r = Decimal { negative: false, whole: kept, frac };
        proof {
            lemma_number_concat(all, r.frac@);
            lemma_number_concat(r.whole@, r.frac@);
            if r.frac@.len() > 0 {
                assert((all + r.frac@).last() == r.frac@.last());
            }
        }
        r
    }

    /// The number with the sign `negative`, the digits `whole` before the
    /// point and the digits `frac` after it, where each element is a digit,
    /// `0` to `9`. Zeros in front of `whole` and at the end of `frac` say
    /// nothing; zero has no sign.
    pub fn from_digits(negative: bool, whole: Vec<u8>, frac: Vec<u8>) -> (r: Option<Decimal>)
        ensures
            match r {
                Some(n) => is_digits(whole@) && is_digits(frac@) && n@ == if negative {
                    DecimalValue::written(whole@, frac@).negated()
                } else {
                    DecimalValue::written(whole@, frac@)
                },
                None => !(is_digits(whole@) && is_digits(frac@)),
            },
    {
        if !all_digits(&whole) || !all_digits(&frac) {
            return None;
        }
        let n = Decimal::written(whole, frac);
        if negative && !n.is_zero() {
            proof {
                use_type_invariant(&n);
            }
            Some(Decimal { negative: true, whole: n.whole, frac: n.frac })
        } else {
            Some(n)
        }
    }

    /// Whether this number is zero.
    pub fn is_zero(&self) -> (r: bool)
        ensures
            r == (self@.units == 0),
    {
        proof {
            use_type_invariant(self);
            lemma_parts(*self);
            if self.frac@.len() > 0 {
                assert(number(self.frac@) >= self.frac@.last());
            }
        }
        self.whole.len() == 0 && self.frac.len() == 0
    }

    /// Whether this number is below zero.
    pub fn is_negative(&self) -> (r: bool)
        ensures
            r == (self@.units < 0),
    {
        proof {
            use_type_invariant(self);
            lemma_parts(*self);
        }
        self.negative
    }

    /// The digits before the point, the first of them not zero. A number
    /// between minus one and one has none.
    pub fn whole_digits(&self) -> (r: Vec<u8>)
        ensures
            is_numeral(r@),
            number(r@) == self@.whole_part(),
    {
        proof {
            use_type_invariant(self);
            lemma_parts(*self);
        }
        let r = self.whole.clone();
        assert(r@ == self.whole@);
        r
    }

    /// The digits after the point, the last of them not zero. An integer has
    /// none.
    pub fn fraction_digits(&self) -> (r: Vec<u8>)
        ensures
            is_digits(r@),
            r@.len() == self@.places,
            number(r@) == self@.fraction_part(),
    {
        proof {
            use_type_invariant(self);
            lemma_parts(*self);
        }
        let r = self.frac.clone();
        assert(r@ == self.frac@);
        r
    }

    /// This number less one.
    pub fn minus_one(&self) -> (r: Decimal)
        ensures
            r@ == self@.minus_one(),
    {
        proof {
            use_type_invariant(self);
            lemma_parts(*self);
        }
        let mut whole = self.whole.clone();
        let mut frac = self.frac.clone();
        assert(whole@ == self.whole@);
        assert(frac@ == self.frac@);
        let negative = if self.negative {
            increment(&mut whole);
            true
        } else if whole.len() > 0 {
            decrement(&mut whole);
            false
        } else if frac.len() == 0 {
            whole.push(1);
            proof {
                lemma_number_single(1u8);
                assert(whole@ =~= seq![1u8]);
            }
            true
        } else {
            frac = complement(&frac);
            true
        };
        let r = Decimal { negative, whole, frac };
        proof {
            lemma_parts(r);
            let p = pow10(self.frac@.len()) as int;
            let w0 = number(self.whole@) as int;
            let w1 = number(r.whole@) as int;
            assert((w0 + 1) * p == w0 * p + p) by (nonlinear_arith);
            assert((w0 - 1) * p == w0 * p - p) by (nonlinear_arith);
            assert(1 * p == p);
        }
        r
    }
}

impl PartialEq for Decimal {
    /// Whether the two numbers have the same value.
    fn eq(&self, other: &Decimal) -> (same: bool) {
        proof {
            use_type_invariant(self);
            use_type_invariant(other);
            if self@ == other@ {
                lemma_one_writing(*self, *other);
            }
        }
        let same = self.negative == other.negative && self.whole == other.whole && self.frac
            == other.frac;
        proof {
            if same {
                assert(self.whole@ =~= other.whole@);
                assert(self.frac@ =~= other.frac@);
            }
        }
        same
    }
}

impl PartialEqSpecImpl for Decimal {
    open spec fn obeys_eq_spec() -> bool {
        true
    }

    open spec fn eq_spec(&self, other: &Decimal) -> bool {
        self@ == other@
    }
}

impl Clone for Decimal {
    fn clone(&self) -> (r: Decimal)
        ensures
            r@ == self@,
    {
        proof {
            use_type_invariant(self);
        }
        let whole = self.whole.clone();
        let frac = self.frac.clone();
        assert(whole@ == self.whole@);
        assert(frac@ == self.frac@);
        Decimal { negative: self.negative, whole, frac }
    }
}

} // verus!
