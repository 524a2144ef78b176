//! Strings of decimal digits and the natural numbers they write.
//!
//! A digit string holds the digits most significant first, each as its value
//! (`0` to `9`, not the character). The empty string writes zero, so a numeral
//! (a string without a leading zero) writes every natural number exactly once.
use vstd::prelude::*;

verus! {

/// Ten to the power `n`.
pub open spec fn pow10(n: nat) -> nat
    decreases n,
{
    if n == 0 {
        1
    } else {
        10 * pow10((n - 1) as nat)
    }
}

/// Every element is a decimal digit.
pub open spec fn is_digits(d: Seq<u8>) -> bool {
    forall|i: int| 0 <= i < d.len() ==> #[trigger] d[i] <= 9
}

/// A digit string without a leading zero.
pub open spec fn is_numeral(d: Seq<u8>) -> bool {
    is_digits(d) && (d.len() > 0 ==> d[0] != 0)
}

/// The number that `d` writes.
pub open spec fn number(d: Seq<u8>) -> nat
    decreases d.len(),
{
    if d.len() == 0 {
        0
    } else {
        10 * number(d.drop_last()) + d.last() as nat
    }
}

/// `n` zeros.
spec fn zeros(n: nat) -> Seq<u8> {
    Seq::new(n, |i: int| 0u8)
}

/// `n` nines.
spec fn nines(n: nat) -> Seq<u8> {
    Seq::new(n, |i: int| 9u8)
}

/// Ten to any power is at least one.
pub proof fn lemma_pow10_positive(n: nat)
    ensures
        pow10(n) >= 1,
    decreases n,
{
    if n > 0 {
        lemma_pow10_positive((n - 1) as nat);
    }
}

/// Appending `b` to `a` shifts `a` by the length of `b`.
pub proof fn lemma_number_concat(a: Seq<u8>, b: Seq<u8>)
    ensures
        number(a + b) == number(a) * pow10(b.len()) + number(b),
    decreases b.len(),
{
    if b.len() == 0 {
        assert(a + b =~= a);
        assert(number(a) * 1 == number(a));
    } else {
        let head = b.drop_last();
        assert((a + b).drop_last() =~= a + head);
        assert((a + b).last() == b.last());
        lemma_number_concat(a, head);
        let p = pow10(head.len());
        let x = number(a);
        let y = number(head);
        assert(number(a + b) == 10 * (x * p + y) + b.last());
        assert(pow10(b.len()) == 10 * p);
        assert(x * (10 * p) + (10 * y + b.last()) == 10 * (x * p + y) + b.last())
            by (nonlinear_arith);
    }
}

/// A string of `n` digits writes a number below ten to the `n`.
pub proof fn lemma_number_bound(d: Seq<u8>)
    requires
        is_digits(d),
    ensures
        number(d) < pow10(d.len()),
    decreases d.len(),
{
    if d.len() > 0 {
        lemma_number_bound(d.drop_last());
    }
}

/// A nonempty numeral writes a positive number.
pub proof fn lemma_numeral_positive(d: Seq<u8>)
    requires
        is_numeral(d),
        d.len() > 0,
    ensures
        number(d) >= pow10((d.len() - 1) as nat),
    decreases d.len(),
{
    if d.len() > 1 {
        lemma_numeral_positive(d.drop_last());
    } else {
        assert(d.drop_last().len() == 0);
    }
}

/// Two strings of digits of one length that write the same number are the same string.
pub proof fn lemma_number_injective(a: Seq<u8>, b: Seq<u8>)
    requires
        is_digits(a),
        is_digits(b),
        a.len() == b.len(),
        number(a) == number(b),
    ensures
        a == b,
    decreases a.len(),
{
    if a.len() > 0 {
        lemma_number_injective(a.drop_last(), b.drop_last());
        assert(a =~= a.drop_last().push(a.last()));
        assert(b =~= b.drop_last().push(b.last()));
    } else {
        assert(a =~= b);
    }
}

/// Two numerals that write the same number are the same string.
pub proof fn lemma_numeral_injective(a: Seq<u8>, b: Seq<u8>)
    requires
        is_numeral(a),
        is_numeral(b),
        number(a) == number(b),
    ensures
        a == b,
{
    lemma_number_bound(a);
    lemma_number_bound(b);
    if a.len() < b.len() {
        lemma_numeral_positive(b);
        lemma_pow10_monotonic(a.len(), (b.len() - 1) as nat);
    } else if b.len() < a.len() {
        lemma_numeral_positive(a);
        lemma_pow10_monotonic(b.len(), (a.len() - 1) as nat);
    } else {
        lemma_number_injective(a, b);
    }
}

/// Ten to a greater power is not less.
pub proof fn lemma_pow10_monotonic(m: nat, n: nat)
    requires
        m <= n,
    ensures
        pow10(m) <= pow10(n),
    decreases n,
{
    if m < n {
        lemma_pow10_monotonic(m, (n - 1) as nat);
    }
}

/// A single digit writes itself.
pub proof fn lemma_number_single(x: u8)
    ensures
        number(seq![x]) == x,
{
    assert(seq![x].drop_last().len() == 0);
    assert(number(seq![x]) == 10 * number(seq![x].drop_last()) + seq![x].last());
}

/// The string that writes one more than `d`: the last digit goes up, a nine
/// turns to zero and carries.
spec fn successor(d: Seq<u8>) -> Seq<u8>
    decreases d.len(),
{
    if d.len() == 0 {
        seq![1u8]
    } else if d.last() < 9 {
        d.drop_last().push((d.last() + 1) as u8)
    } else {
        successor(d.drop_last()).push(0u8)
    }
}

/// The string of the same length that writes one less than `d`: the last
/// digit goes down, a zero turns to nine and borrows.
spec fn predecessor(d: Seq<u8>) -> Seq<u8>
    decreases d.len(),
{
    if d.len() == 0 {
        d
    } else if d.last() > 0 {
        d.drop_last().push((d.last() - 1) as u8)
    } else {
        predecessor(d.drop_last()).push(9u8)
    }
}

/// The successor of a numeral is the numeral of the next number.
proof fn lemma_successor(d: Seq<u8>)
    requires
        is_numeral(d),
    ensures
        is_numeral(successor(d)),
        successor(d).len() > 0,
        number(successor(d)) == number(d) + 1,
    decreases d.len(),
{
    if d.len() == 0 {
        lemma_number_single(1u8);
    } else if d.last() < 9 {
        let r = d.drop_last().push((d.last() + 1) as u8);
        assert(r.drop_last() =~= d.drop_last());
        assert(number(r) == 10 * number(r.drop_last()) + r.last());
    } else {
        let head = d.drop_last();
        lemma_successor(head);
        let r = successor(head).push(0u8);
        assert(r.drop_last() =~= successor(head));
        assert(number(r) == 10 * number(r.drop_last()) + r.last());
    }
}

/// The predecessor of a string that writes a positive number writes the
/// number before it, in as many digits. Its first digit is that of `d`, or
/// one less where all the other digits of `d` are zero; they are then nines.
proof fn lemma_predecessor(d: Seq<u8>)
    requires
        is_digits(d),
        number(d) > 0,
    ensures
        is_digits(predecessor(d)),
        predecessor(d).len() == d.len(),
        number(predecessor(d)) == number(d) - 1,
        predecessor(d)[0] == d[0] || (predecessor(d)[0] == d[0] - 1
            && predecessor(d).subrange(1, d.len() as int) == nines((d.len() - 1) as nat)),
    decreases d.len(),
{
    if d.last() > 0 {
        let r = d.drop_last().push((d.last() - 1) as u8);
        assert(r.drop_last() =~= d.drop_last());
        assert(number(r) == 10 * number(r.drop_last()) + r.last());
        if d.len() == 1 {
            assert(r.subrange(1, 1) =~= nines(0));
        }
    } else {
        let head = d.drop_last();
        lemma_predecessor(head);
        let r = predecessor(head).push(9u8);
        assert(r.drop_last() =~= predecessor(head));
        assert(number(r) == 10 * number(r.drop_last()) + r.last());
        if r[0] != d[0] {
            assert(r.subrange(1, d.len() as int) =~= nines((d.len() - 1) as nat)) by {
                assert(predecessor(head).subrange(1, head.len() as int) == nines(
                    (head.len() - 1) as nat,
                ));
                assert forall|i: int| 0 <= i < d.len() - 1 implies r.subrange(
                    1,
                    d.len() as int,
                )[i] == 9u8 by {
                    if i < head.len() - 1 {
                        assert(predecessor(head).subrange(1, head.len() as int)[i] == 9u8);
                    }
                }
            }
        }
    }
}

/// A leading zero does not change the number.
pub proof fn lemma_number_leading_zero(d: Seq<u8>)
    requires
        d.len() > 0,
        d[0] == 0,
    ensures
        number(d.drop_first()) == number(d),
{
    let z = seq![0u8];
    assert(z + d.drop_first() =~= d);
    lemma_number_concat(z, d.drop_first());
    lemma_number_single(0u8);
    assert(0 * pow10(d.drop_first().len()) == 0);
}

/// Adds one to the number that `d` writes.
pub(crate) fn increment(d: &mut Vec<u8>)
    requires
        is_numeral(old(d)@),
    ensures
        is_numeral(final(d)@),
        final(d)@.len() > 0,
        number(final(d)@) == number(old(d)@) + 1,
{
    let ghost start = d@;
    let mut carried: usize = 0;
    assert(start.len() == d.len());
    while d.len() > 0 && d[d.len() - 1] == 9
        invariant
            successor(start) == successor(d@) + zeros(carried as nat),
            carried + d.len() == start.len(),
            start.len() <= usize::MAX,
            is_numeral(d@),
        decreases d.len(),
    {
        let ghost before = d@;
        d.pop();
        carried = carried + 1;
        proof {
            assert(d@ =~= before.drop_last());
            assert(successor(before) == successor(d@).push(0u8));
            assert(successor(d@).push(0u8) + zeros((carried - 1) as nat) =~= successor(d@) + zeros(
                carried as nat,
            ));
        }
    }
    let ghost head = d@;
    match d.pop() {
        None => {
            d.push(1);
        },
        Some(last) => {
            d.push(last + 1);
            assert(d@ =~= successor(head));
        },
    }
    assert(d@ =~= successor(head));
    let mut restored: usize = 0;
    while restored < carried
        invariant
            restored <= carried,
            d@ == successor(head) + zeros(restored as nat),
            carried + head.len() == start.len(),
        decreases carried - restored,
    {
        d.push(0);
        restored = restored + 1;
        assert(d@ =~= successor(head) + zeros(restored as nat));
    }
    proof {
        lemma_successor(start);
    }
}

/// Takes one from the number that `d` writes.
pub(crate) fn decrement(d: &mut Vec<u8>)
    requires
        is_numeral(old(d)@),
        old(d)@.len() > 0,
    ensures
        is_numeral(final(d)@),
        number(final(d)@) == number(old(d)@) - 1,
{
    let ghost start = d@;
    proof {
        lemma_numeral_positive(start);
        lemma_pow10_positive((start.len() - 1) as nat);
        lemma_predecessor(start);
    }
    let mut borrowed: usize = 0;
    assert(start.len() == d.len());
    while d.len() > 0 && d[d.len() - 1] == 0
        invariant
            predecessor(start) == predecessor(d@) + nines(borrowed as nat),
            borrowed + d.len() == start.len(),
            start.len() <= usize::MAX,
            is_numeral(start),
            d.len() > 0,
            d@[0] == start[0],
        decreases d.len(),
    {
        let ghost before = d@;
        d.pop();
        borrowed = borrowed + 1;
        proof {
            assert(d@ =~= before.drop_last());
            assert(predecessor(before) == predecessor(d@).push(9u8));
            assert(predecessor(d@).push(9u8) + nines((borrowed - 1) as nat) =~= predecessor(d@)
                + nines(borrowed as nat));
        }
    }
    let ghost head = d@;
    let last: u8 = d[d.len() - 1];
    d.pop();
    d.push(last - 1);
    assert(d@ =~= predecessor(head));
    let mut restored: usize = 0;
    while restored < borrowed
        invariant
            restored <= borrowed,
            d@ == predecessor(head) + nines(restored as nat),
        decreases borrowed - restored,
    {
        d.push(9);
        restored = restored + 1;
        assert(d@ =~= predecessor(head) + nines(restored as nat));
    }
    assert(d@ == predecessor(start));
    if d[0] == 0 {
        proof {
            lemma_number_leading_zero(d@);
            assert(d@.drop_first() =~= d@.subrange(1, d@.len() as int));
        }
        d.remove(0);
        assert(d@ =~= predecessor(start).drop_first());
    }
}

/// The digits of `d`, each taken from nine.
spec fn nines_complement(d: Seq<u8>) -> Seq<u8> {
    Seq::new(d.len(), |i: int| (9 - d[i]) as u8)
}

/// A string of `n` digits and its nines' complement add up to `n` nines.
proof fn lemma_nines_complement(d: Seq<u8>)
    requires
        is_digits(d),
    ensures
        is_digits(nines_complement(d)),
        number(nines_complement(d)) + number(d) + 1 == pow10(d.len()),
    decreases d.len(),
{
    if d.len() > 0 {
        assert(nines_complement(d).drop_last() =~= nines_complement(d.drop_last()));
        lemma_nines_complement(d.drop_last());
    }
}

/// The digits that write ten to the length of `d`, less what `d` writes: as
/// digits after the point, one less the fraction that `d` is.
pub(crate) fn complement(d: &Vec<u8>) -> (r: Vec<u8>)
    requires
        is_digits(d@),
        d.len() > 0,
        d@.last() != 0,
    ensures
        is_digits(r@),
        r.len() == d.len(),
        r@.last() != 0,
        number(r@) + number(d@) == pow10(d@.len()),
{
    let mut r: Vec<u8> = Vec::new();
    let mut i: usize = 0;
    while i + 1 < d.len()
        invariant
            i < d.len(),
            is_digits(d@),
            r@ == nines_complement(d@.take(i as int)),
        decreases d.len() - i,
    {
        r.push(9 - d[i]);
        i = i + 1;
        assert(r@ =~= nines_complement(d@.take(i as int)));
    }
    r.push(10 - d[i]);
    proof {
        assert(d@.take(i as int) =~= d@.drop_last());
        assert(r@.drop_last() =~= nines_complement(d@.drop_last()));
        lemma_nines_complement(d@.drop_last());
    }
    r
}

/// Whether every element of `d` is a decimal digit.
pub(crate) fn all_digits(d: &Vec<u8>) -> (r: bool)
    ensures
        r == is_digits(d@),
{
    let mut i: usize = 0;
    while i < d.len()
        invariant
            i <= d.len(),
            is_digits(d@.take(i as int)),
        decreases d.len() - i,
    {
        if d[i] > 9 {
            return false;
        }
        i = i + 1;
        assert forall|k: int| 0 <= k < i implies #[trigger] d@.take(i as int)[k] <= 9 by {
            if k < i - 1 {
                assert(d@.take(i - 1)[k] <= 9);
            }
        }
    }
    assert(d@.take(i as int) =~= d@);
    true
}

/// The numeral of `n`.
pub(crate) fn digits_of(n: u64) -> (d: Vec<u8>)
    ensures
        is_numeral(d@),
        number(d@) == n,
    decreases n,
{
    if n == 0 {
        Vec::new()
    } else {
        let mut d = digits_of(n / 10);
        let ghost head = d@;
        d.push((n % 10) as u8);
        assert(d@.drop_last() =~= head);
        d
    }
}

} // verus!
