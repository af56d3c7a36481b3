//! Decimal digit strings and their integer values: the shared ground for
//! key-descriptor parsing and for exact numeric comparison.

use vstd::prelude::*;

verus! {

/// An ASCII decimal digit.
pub open spec fn is_digit(b: u8) -> bool {
    48 <= b <= 57
}

/// Every byte of `p` is an ASCII decimal digit.
pub open spec fn all_digits(p: Seq<u8>) -> bool {
    forall|i: int| 0 <= i < p.len() ==> is_digit(#[trigger] p[i])
}

/// The integer value of a digit string read most-significant first.
/// The empty string has value 0.
pub open spec fn digits_val(p: Seq<u8>) -> int
    decreases p.len(),
{
    if p.len() == 0 {
        0
    } else {
        digits_val(p.drop_last()) * 10 + (p.last() - 48)
    }
}

/// Ten to the `n`-th power.
pub open spec fn pow10(n: nat) -> int
    decreases n,
{
    if n == 0 {
        1
    } else {
        10 * pow10((n - 1) as nat)
    }
}

pub proof fn lemma_pow10_pos(n: nat)
    ensures
        pow10(n) >= 1,
    decreases n,
{
    if n > 0 {
        lemma_pow10_pos((n - 1) as nat);
    }
}

pub proof fn lemma_pow10_mono(m: nat, n: nat)
    requires
        m <= n,
    ensures
        pow10(m) <= pow10(n),
    decreases n,
{
    if m < n {
        lemma_pow10_mono(m, (n - 1) as nat);
        lemma_pow10_pos((n - 1) as nat);
    }
}

/// A digit string's value is non-negative and below ten to its length.
pub proof fn lemma_digits_val_bounds(p: Seq<u8>)
    requires
        all_digits(p),
    ensures
        0 <= digits_val(p) < pow10(p.len()),
    decreases p.len(),
{
    if p.len() > 0 {
        assert(all_digits(p.drop_last()));
        lemma_digits_val_bounds(p.drop_last());
        assert(is_digit(p[p.len() - 1]));
    }
}

/// Extending a digit string with further digits never lowers its value.
pub proof fn lemma_digits_val_prefix_le(q: Seq<u8>, k: int)
    requires
        all_digits(q),
        0 <= k <= q.len(),
    ensures
        digits_val(q.take(k)) <= digits_val(q),
    decreases q.len() - k,
{
    if k < q.len() {
        assert(all_digits(q.take(k)));
        lemma_digits_val_bounds(q.take(k));
        assert(q.take(k + 1).drop_last() =~= q.take(k));
        assert(q.take(k + 1).last() == q[k]);
        assert(is_digit(q[k]));
        assert(digits_val(q.take(k + 1)) == digits_val(q.take(k)) * 10 + (q[k] - 48));
        lemma_digits_val_prefix_le(q, k + 1);
    } else {
        assert(q.take(k) =~= q);
    }
}

/// Value of a concatenation: the head is scaled by ten to the tail's length.
pub proof fn lemma_digits_val_concat(x: Seq<u8>, y: Seq<u8>)
    ensures
        digits_val(x + y) == digits_val(x) * pow10(y.len()) + digits_val(y),
    decreases y.len(),
{
    if y.len() == 0 {
        assert(x + y =~= x);
    } else {
        assert((x + y).drop_last() =~= x + y.drop_last());
        assert((x + y).last() == y.last());
        lemma_digits_val_concat(x, y.drop_last());
        assert(digits_val(x + y) == (digits_val(x) * pow10((y.len() - 1) as nat) + digits_val(
            y.drop_last(),
        )) * 10 + (y.last() - 48));
        assert((digits_val(x) * pow10((y.len() - 1) as nat)) * 10 == digits_val(x) * (pow10(
            (y.len() - 1) as nat,
        ) * 10)) by (nonlinear_arith);
        assert(pow10((y.len() - 1) as nat) * 10 == pow10(y.len()));
    }
}

/// The value of a one-digit string.
pub proof fn lemma_digits_val_singleton(b: u8)
    ensures
        digits_val(seq![b]) == b - 48,
{
    assert(seq![b].drop_last() =~= Seq::<u8>::empty());
    assert(digits_val(Seq::<u8>::empty()) == 0);
    assert(seq![b].last() == b);
}

/// A digit string whose first digit is not zero has value at least ten to
/// one less than its length.
pub proof fn lemma_digits_val_lower(p: Seq<u8>)
    requires
        all_digits(p),
        p.len() > 0,
        p[0] != 48,
    ensures
        digits_val(p) >= pow10((p.len() - 1) as nat),
{
    let head = p.take(1);
    let tail = p.skip(1);
    assert(p =~= head + tail);
    lemma_digits_val_concat(head, tail);
    assert(digits_val(head) == (p[0] - 48)) by {
        assert(head =~= seq![p[0]]);
        lemma_digits_val_singleton(p[0]);
    }
    assert(all_digits(tail));
    lemma_digits_val_bounds(tail);
    lemma_pow10_pos(tail.len());
    assert(digits_val(head) >= 1);
    assert(digits_val(head) * pow10(tail.len()) >= pow10(tail.len())) by (nonlinear_arith)
        requires
            digits_val(head) >= 1,
            pow10(tail.len()) >= 1,
    ;
}

/// Prepending a zero digit does not change the value.
pub proof fn lemma_digits_val_skip_zero(p: Seq<u8>)
    requires
        p.len() > 0,
        p[0] == 48,
    ensures
        digits_val(p) == digits_val(p.skip(1)),
{
    let head = p.take(1);
    let tail = p.skip(1);
    assert(p =~= head + tail);
    lemma_digits_val_concat(head, tail);
    assert(digits_val(head) == 0) by {
        assert(head =~= seq![p[0]]);
        lemma_digits_val_singleton(p[0]);
    }
}

/// Appending zero digits multiplies the value by ten to their count.
pub proof fn lemma_digits_val_pad_zeros(p: Seq<u8>, k: nat)
    ensures
        digits_val(p + zeros(k)) == digits_val(p) * pow10(k),
{
    lemma_digits_val_concat(p, zeros(k));
    lemma_zeros_val(k);
}

/// A run of `k` zero digits.
pub open spec fn zeros(k: nat) -> Seq<u8> {
    Seq::new(k, |i: int| 48u8)
}

pub proof fn lemma_zeros_val(k: nat)
    ensures
        digits_val(zeros(k)) == 0,
        all_digits(zeros(k)),
    decreases k,
{
    if k > 0 {
        assert(zeros(k).drop_last() =~= zeros((k - 1) as nat));
        lemma_zeros_val((k - 1) as nat);
    }
}

/// A digit string has value zero exactly when every digit is zero.
pub proof fn lemma_digits_val_zero_iff(p: Seq<u8>)
    requires
        all_digits(p),
    ensures
        (digits_val(p) == 0) <==> (forall|i: int| 0 <= i < p.len() ==> p[i] == 48),
    decreases p.len(),
{
    if p.len() > 0 {
        assert(all_digits(p.drop_last()));
        lemma_digits_val_zero_iff(p.drop_last());
        lemma_digits_val_bounds(p.drop_last());
        assert(is_digit(p.last()));
        if digits_val(p) == 0 {
            assert(digits_val(p.drop_last()) == 0 && p.last() == 48);
            assert(forall|i: int| 0 <= i < p.len() - 1 ==> p.drop_last()[i] == p[i]);
        } else {
            if forall|i: int| 0 <= i < p.len() ==> p[i] == 48 {
                assert(forall|i: int|
                    0 <= i < p.len() - 1 ==> #[trigger] p.drop_last()[i] == p[i]);
                assert(p.last() == 48);
                assert(digits_val(p) == 0);
            }
        }
    }
}

/// The value of two concatenated digit strings is zero exactly when every
/// digit of both is zero.
pub proof fn lemma_concat_zero(x: Seq<u8>, y: Seq<u8>)
    requires
        all_digits(x),
        all_digits(y),
    ensures
        (digits_val(x + y) == 0) <==> ((forall|j: int| 0 <= j < x.len() ==> x[j] == 48) && (forall|
            j: int,
        | 0 <= j < y.len() ==> y[j] == 48)),
{
    assert(all_digits(x + y)) by {
        assert(forall|j: int|
            0 <= j < (x + y).len() ==> #[trigger] (x + y)[j] == if j < x.len() {
                x[j]
            } else {
                y[j - x.len()]
            });
    }
    lemma_digits_val_zero_iff(x + y);
    if digits_val(x + y) == 0 {
        assert forall|j: int| 0 <= j < x.len() implies x[j] == 48 by {
            assert((x + y)[j] == x[j]);
            assert((x + y)[j] == 48);
        }
        assert forall|j: int| 0 <= j < y.len() implies y[j] == 48 by {
            assert((x + y)[j + x.len()] == y[j]);
            assert((x + y)[j + x.len()] == 48);
        }
    } else {
        if (forall|j: int| 0 <= j < x.len() ==> x[j] == 48) && (forall|j: int|
            0 <= j < y.len() ==> y[j] == 48) {
            assert forall|j: int| 0 <= j < (x + y).len() implies #[trigger] (x + y)[j] == 48 by {
                if j < x.len() {
                    assert((x + y)[j] == x[j]);
                } else {
                    assert((x + y)[j] == y[j - x.len()]);
                }
            }
        }
    }
}

/// For equally long digit strings, the digit-wise (lexicographic) order is
/// the numeric order.
pub proof fn lemma_digits_val_lex(p: Seq<u8>, q: Seq<u8>, d: int)
    requires
        all_digits(p),
        all_digits(q),
        p.len() == q.len(),
        0 <= d < p.len(),
        forall|i: int| 0 <= i < d ==> p[i] == q[i],
        p[d] < q[d],
    ensures
        digits_val(p) < digits_val(q),
    decreases p.len(),
{
    let pre_p = p.take(d + 1);
    let suf_p = p.skip(d + 1);
    let pre_q = q.take(d + 1);
    let suf_q = q.skip(d + 1);
    assert(p =~= pre_p + suf_p);
    assert(q =~= pre_q + suf_q);
    lemma_digits_val_concat(pre_p, suf_p);
    lemma_digits_val_concat(pre_q, suf_q);
    assert(all_digits(pre_p) && all_digits(suf_p) && all_digits(pre_q) && all_digits(suf_q));
    // the shared prefix gives values differing by at least one
    assert(pre_p.drop_last() =~= pre_q.drop_last()) by {
        assert(forall|i: int|
            0 <= i < d ==> #[trigger] pre_p.drop_last()[i] == p[i] && pre_q.drop_last()[i] == q[i]);
    }
    assert(digits_val(pre_p) < digits_val(pre_q)) by {
        assert(pre_p.last() == p[d] && pre_q.last() == q[d]);
    }
    lemma_digits_val_bounds(suf_p);
    lemma_digits_val_bounds(suf_q);
    assert(suf_p.len() == suf_q.len());
    let t = pow10(suf_p.len());
    lemma_pow10_pos(suf_p.len());
    assert(digits_val(pre_p) * t + t <= digits_val(pre_q) * t) by (nonlinear_arith)
        requires
            digits_val(pre_p) < digits_val(pre_q),
            t >= 1,
    ;
}

} // verus!
