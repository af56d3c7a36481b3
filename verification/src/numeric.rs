//! Exact comparison of leading numeric values.
//!
//! A record's numeric value is its leading `[ws][sign][digits][.digits]`
//! prefix read as the rational `sign * digits / 10^(fraction length)`; a
//! prefix with no digits at all has value zero. Two records are compared by
//! cross-multiplying the two rationals, so the comparison is exact for any
//! number of digits. An `e`/`E` exponent marker simply terminates parsing.

use vstd::prelude::*;
use vstd::slice::slice_subrange;

use core::cmp::Ordering;

use crate::digits::{all_digits, digits_val, is_digit, lemma_digits_val_bounds,
    lemma_digits_val_concat, lemma_digits_val_lex, lemma_digits_val_lower,
    lemma_digits_val_pad_zeros, lemma_digits_val_skip_zero, lemma_digits_val_zero_iff,
    lemma_pow10_mono, lemma_pow10_pos, lemma_zeros_val, pow10, zeros};
use crate::fields::next_nonws;

verus! {

/// Index of the first non-digit byte at or after `i`, or `s.len()`.
pub open spec fn next_nondigit(s: Seq<u8>, i: int) -> int
    decreases s.len() - i,
{
    if i < 0 || i >= s.len() {
        s.len() as int
    } else if !is_digit(s[i]) {
        i
    } else {
        next_nondigit(s, i + 1)
    }
}

pub proof fn lemma_next_nondigit_bounds(s: Seq<u8>, i: int)
    requires
        0 <= i <= s.len(),
    ensures
        i <= next_nondigit(s, i) <= s.len(),
        next_nondigit(s, i) < s.len() ==> !is_digit(s[next_nondigit(s, i)]),
        all_digits(s.subrange(i, next_nondigit(s, i))),
    decreases s.len() - i,
{
    if i < s.len() && is_digit(s[i]) {
        lemma_next_nondigit_bounds(s, i + 1);
        let nd = next_nondigit(s, i);
        assert forall|j: int| 0 <= j < nd - i implies is_digit(#[trigger] s.subrange(i, nd)[j]) by {
            assert(s.subrange(i, nd)[j] == s[i + j]);
            if j > 0 {
                assert(s.subrange(i + 1, nd)[j - 1] == s[i + j]);
                assert(is_digit(s.subrange(i + 1, nd)[j - 1]));
            }
        }
    } else {
        assert(s.subrange(i, next_nondigit(s, i)).len() == 0);
    }
}

/// The numeric prefix of a record: is it negative, its integer digits, and
/// its fraction digits. A record without a numeric prefix parses to
/// `(false, empty, empty)`.
pub open spec fn num_parse(s: Seq<u8>) -> (bool, Seq<u8>, Seq<u8>) {
    let i = next_nonws(s, 0);
    if i >= s.len() {
        (false, Seq::empty(), Seq::empty())
    } else {
        let neg = s[i] == 45;
        let b = if s[i] == 45 || s[i] == 43 {
            i + 1
        } else {
            i
        };
        let d1 = next_nondigit(s, b);
        if d1 < s.len() && s[d1] == 46 {
            let d2 = next_nondigit(s, d1 + 1);
            (neg, s.subrange(b, d1), s.subrange(d1 + 1, d2))
        } else {
            (neg, s.subrange(b, d1), Seq::empty())
        }
    }
}

/// Order of two integers.
pub open spec fn int_cmp(x: int, y: int) -> Ordering {
    if x < y {
        Ordering::Less
    } else if x > y {
        Ordering::Greater
    } else {
        Ordering::Equal
    }
}

/// The signed numerator of a parsed numeric prefix: the sign applied to the
/// value of the integer and fraction digits run together.
pub open spec fn num_numerator(p: (bool, Seq<u8>, Seq<u8>)) -> int {
    let mag = digits_val(p.1 + p.2);
    if p.0 {
        -mag
    } else {
        mag
    }
}

/// Exact order of the leading numeric values of `a` and `b`: the order of
/// the rationals `numerator / 10^(fraction length)`, decided by
/// cross-multiplication. In particular `-0`, `+0` and `0` compare equal.
pub open spec fn num_cmp(a: Seq<u8>, b: Seq<u8>) -> Ordering {
    let pa = num_parse(a);
    let pb = num_parse(b);
    int_cmp(num_numerator(pa) * pow10(pb.2.len()), num_numerator(pb) * pow10(pa.2.len()))
}

pub proof fn lemma_pow10_add(m: nat, n: nat)
    ensures
        pow10(m + n) == pow10(m) * pow10(n),
    decreases m,
{
    if m == 0 {
    } else {
        lemma_pow10_add((m - 1) as nat, n);
        assert(pow10(m + n) == 10 * pow10((m - 1) as nat + n));
        assert(10 * (pow10((m - 1) as nat) * pow10(n)) == (10 * pow10((m - 1) as nat)) * pow10(n))
            by (nonlinear_arith);
    }
}

/// Scaling a concatenated digit value: the integer part carries both scale
/// factors, the fraction part only the foreign one.
proof fn lemma_scaled_value(i: Seq<u8>, f: Seq<u8>, other: nat)
    ensures
        digits_val(i + f) * pow10(other) == digits_val(i) * pow10(f.len() + other) + digits_val(f)
            * pow10(other),
{
    lemma_digits_val_concat(i, f);
    lemma_pow10_add(f.len(), other);
    let iv = digits_val(i);
    let fv = digits_val(f);
    let pf = pow10(f.len());
    let po = pow10(other);
    assert((iv * pf + fv) * po == iv * (pf * po) + fv * po) by (nonlinear_arith);
}

/// Dropping `k` leading zero digits does not change the value.
proof fn lemma_skip_zeros(p: Seq<u8>, k: int)
    requires
        0 <= k <= p.len(),
        forall|j: int| 0 <= j < k ==> p[j] == 48,
    ensures
        digits_val(p) == digits_val(p.skip(k)),
    decreases k,
{
    if k > 0 {
        lemma_digits_val_skip_zero(p);
        assert(p.skip(1).skip(k - 1) =~= p.skip(k));
        lemma_skip_zeros(p.skip(1), k - 1);
    } else {
        assert(p.skip(0) =~= p);
    }
}

/// A strictly smaller integer part decides the cross-multiplied comparison,
/// whatever the fraction digits.
proof fn lemma_mag_int_lt(ia: Seq<u8>, fa: Seq<u8>, ib: Seq<u8>, fb: Seq<u8>)
    requires
        all_digits(ia),
        all_digits(fa),
        all_digits(ib),
        all_digits(fb),
        digits_val(ia) < digits_val(ib),
    ensures
        digits_val(ia + fa) * pow10(fb.len()) < digits_val(ib + fb) * pow10(fa.len()),
{
    lemma_scaled_value(ia, fa, fb.len());
    lemma_scaled_value(ib, fb, fa.len());
    let p = pow10(fa.len() + fb.len());
    assert(fb.len() + fa.len() == fa.len() + fb.len());
    lemma_digits_val_bounds(fa);
    lemma_digits_val_bounds(fb);
    lemma_pow10_pos(fa.len());
    lemma_pow10_pos(fb.len());
    lemma_pow10_add(fa.len(), fb.len());
    assert(digits_val(fa) * pow10(fb.len()) < p) by (nonlinear_arith)
        requires
            0 <= digits_val(fa) < pow10(fa.len()),
            pow10(fb.len()) >= 1,
            p == pow10(fa.len()) * pow10(fb.len()),
    ;
    assert(digits_val(fb) * pow10(fa.len()) >= 0) by (nonlinear_arith)
        requires
            digits_val(fb) >= 0,
            pow10(fa.len()) >= 1,
    ;
    assert(digits_val(ia) * p + p <= digits_val(ib) * p) by (nonlinear_arith)
        requires
            digits_val(ia) < digits_val(ib),
            p >= 1,
    ;
}

/// With equal integer parts, the cross-multiplied comparison is the
/// comparison of the two fraction digit strings padded to a common length.
proof fn lemma_mag_frac_cmp(ia: Seq<u8>, fa: Seq<u8>, ib: Seq<u8>, fb: Seq<u8>, kk: nat)
    requires
        all_digits(ia),
        all_digits(fa),
        all_digits(ib),
        all_digits(fb),
        digits_val(ia) == digits_val(ib),
        fa.len() <= kk,
        fb.len() <= kk,
        kk <= fa.len() + fb.len(),
    ensures
        int_cmp(digits_val(ia + fa) * pow10(fb.len()), digits_val(ib + fb) * pow10(fa.len()))
            == int_cmp(
            digits_val(fa + zeros((kk - fa.len()) as nat)),
            digits_val(fb + zeros((kk - fb.len()) as nat)),
        ),
{
    lemma_scaled_value(ia, fa, fb.len());
    lemma_scaled_value(ib, fb, fa.len());
    assert(fb.len() + fa.len() == fa.len() + fb.len());
    let xa = digits_val(ia + fa) * pow10(fb.len());
    let xb = digits_val(ib + fb) * pow10(fa.len());
    let da = digits_val(fa + zeros((kk - fa.len()) as nat));
    let db = digits_val(fb + zeros((kk - fb.len()) as nat));
    lemma_digits_val_pad_zeros(fa, (kk - fa.len()) as nat);
    lemma_digits_val_pad_zeros(fb, (kk - fb.len()) as nat);
    let m = pow10((fa.len() + fb.len() - kk) as nat);
    lemma_pow10_pos((fa.len() + fb.len() - kk) as nat);
    // scale the padded values down to the cross-multiplied ones
    lemma_pow10_add((kk - fa.len()) as nat, (fa.len() + fb.len() - kk) as nat);
    lemma_pow10_add((kk - fb.len()) as nat, (fa.len() + fb.len() - kk) as nat);
    assert(da * m == digits_val(fa) * pow10(fb.len())) by (nonlinear_arith)
        requires
            da == digits_val(fa) * pow10((kk - fa.len()) as nat),
            pow10((kk - fa.len()) as nat) * m == pow10(fb.len()),
    ;
    assert(db * m == digits_val(fb) * pow10(fa.len())) by (nonlinear_arith)
        requires
            db == digits_val(fb) * pow10((kk - fb.len()) as nat),
            pow10((kk - fb.len()) as nat) * m == pow10(fa.len()),
    ;
    assert(digits_val(ia) * pow10(fa.len() + fb.len()) == digits_val(ib) * pow10(
        fa.len() + fb.len(),
    ));
    assert(xa - xb == da * m - db * m);
    assert((da < db ==> da * m < db * m) && (da > db ==> da * m > db * m) && (da == db ==> da * m
        == db * m)) by (nonlinear_arith)
        requires
            m >= 1,
    ;
}

/// The numeric order is transitive: the cross-multiplied inequalities
/// compose.
pub proof fn lemma_num_cmp_le_trans(a: Seq<u8>, b: Seq<u8>, c: Seq<u8>)
    requires
        num_cmp(a, b) != Ordering::Greater,
        num_cmp(b, c) != Ordering::Greater,
    ensures
        num_cmp(a, c) != Ordering::Greater,
{
    let na = num_numerator(num_parse(a));
    let nb = num_numerator(num_parse(b));
    let nc = num_numerator(num_parse(c));
    let pa = pow10(num_parse(a).2.len());
    let pb = pow10(num_parse(b).2.len());
    let pc = pow10(num_parse(c).2.len());
    lemma_pow10_pos(num_parse(a).2.len());
    lemma_pow10_pos(num_parse(b).2.len());
    lemma_pow10_pos(num_parse(c).2.len());
    assert(na * pb <= nb * pa);
    assert(nb * pc <= nc * pb);
    assert((na * pc) * pb <= (nc * pa) * pb) by (nonlinear_arith)
        requires
            na * pb <= nb * pa,
            nb * pc <= nc * pb,
            pa >= 1,
            pb >= 1,
            pc >= 1,
    ;
    assert(na * pc <= nc * pa) by (nonlinear_arith)
        requires
            (na * pc) * pb <= (nc * pa) * pb,
            pb >= 1,
    ;
}

/// Count of leading zero digits.
fn leading_zeros(p: &[u8]) -> (z: usize)
    ensures
        z <= p@.len(),
        forall|j: int| 0 <= j < z ==> p@[j] == 48,
        z < p@.len() ==> p@[z as int] != 48,
{
    let mut z: usize = 0;
    while z < p.len() && p[z] == 48
        invariant
            z <= p@.len(),
            forall|j: int| 0 <= j < z ==> p@[j] == 48,
        decreases p@.len() - z,
    {
        z = z + 1;
    }
    z
}

/// Whether every byte of the slice is the zero digit.
fn all_zero_digits(p: &[u8]) -> (b: bool)
    ensures
        b == (forall|j: int| 0 <= j < p@.len() ==> p@[j] == 48),
{
    let mut i: usize = 0;
    while i < p.len()
        invariant
            i <= p@.len(),
            forall|j: int| 0 <= j < i ==> p@[j] == 48,
        decreases p@.len() - i,
    {
        if p[i] != 48 {
            return false;
        }
        i = i + 1;
    }
    true
}

/// Compare two magnitudes given as integer and fraction digit strings:
/// the order of `digits(ia,fa) / 10^|fa|` against `digits(ib,fb) / 10^|fb|`.
fn cmp_magnitude(ia: &[u8], fa: &[u8], ib: &[u8], fb: &[u8]) -> (r: Ordering)
    requires
        all_digits(ia@),
        all_digits(fa@),
        all_digits(ib@),
        all_digits(fb@),
    ensures
        r == int_cmp(digits_val(ia@ + fa@) * pow10(fb@.len()), digits_val(ib@ + fb@) * pow10(
            fa@.len(),
        )),
{
    let za = leading_zeros(ia);
    let zb = leading_zeros(ib);
    proof {
        lemma_skip_zeros(ia@, za as int);
        lemma_skip_zeros(ib@, zb as int);
        assert(all_digits(ia@.skip(za as int)));
        assert(all_digits(ib@.skip(zb as int)));
    }
    let na = ia.len() - za;
    let nb = ib.len() - zb;
    let ghost sa = ia@.skip(za as int);
    let ghost sb = ib@.skip(zb as int);
    if na < nb {
        proof {
            lemma_digits_val_bounds(sa);
            lemma_digits_val_lower(sb);
            lemma_pow10_mono(na as nat, (nb - 1) as nat);
            lemma_mag_int_lt(ia@, fa@, ib@, fb@);
        }
        return Ordering::Less;
    }
    if nb < na {
        proof {
            lemma_digits_val_bounds(sb);
            lemma_digits_val_lower(sa);
            lemma_pow10_mono(nb as nat, (na - 1) as nat);
            lemma_mag_int_lt(ib@, fb@, ia@, fa@);
        }
        return Ordering::Greater;
    }
    // equal significant lengths: digit-wise comparison of the integer parts
    let mut k: usize = 0;
    while k < na
        invariant
            k <= na,
            na == nb,
            za + na == ia@.len(),
            zb + nb == ib@.len(),
            ia@.len() <= usize::MAX,
            ib@.len() <= usize::MAX,
            sa == ia@.skip(za as int),
            sb == ib@.skip(zb as int),
            all_digits(ia@),
            all_digits(fa@),
            all_digits(ib@),
            all_digits(fb@),
            all_digits(sa),
            all_digits(sb),
            digits_val(ia@) == digits_val(sa),
            digits_val(ib@) == digits_val(sb),
            forall|j: int| 0 <= j < k ==> sa[j] == sb[j],
        decreases na - k,
    {
        proof {
            assert(za + k < ia@.len());
            assert(zb + k < ib@.len());
        }
        let ca = ia[za + k];
        let cb = ib[zb + k];
        proof {
            assert(sa[k as int] == ia@[(za + k) as int]);
            assert(sb[k as int] == ib@[(zb + k) as int]);
        }
        if ca < cb {
            proof {
                lemma_digits_val_lex(sa, sb, k as int);
                lemma_mag_int_lt(ia@, fa@, ib@, fb@);
            }
            return Ordering::Less;
        }
        if cb < ca {
            proof {
                lemma_digits_val_lex(sb, sa, k as int);
                lemma_mag_int_lt(ib@, fb@, ia@, fa@);
            }
            return Ordering::Greater;
        }
        k = k + 1;
    }
    proof {
        assert(sa =~= sb);
    }
    // integer parts equal in value: compare fractions padded with zeros
    let kf = if fa.len() < fb.len() {
        fb.len()
    } else {
        fa.len()
    };
    let ghost pa = fa@ + zeros((kf - fa@.len()) as nat);
    let ghost pb = fb@ + zeros((kf - fb@.len()) as nat);
    proof {
        lemma_zeros_val((kf - fa@.len()) as nat);
        lemma_zeros_val((kf - fb@.len()) as nat);
        assert(all_digits(pa)) by {
            assert(forall|j: int|
                0 <= j < pa.len() ==> #[trigger] pa[j] == if j < fa@.len() {
                    fa@[j]
                } else {
                    48u8
                });
        }
        assert(all_digits(pb)) by {
            assert(forall|j: int|
                0 <= j < pb.len() ==> #[trigger] pb[j] == if j < fb@.len() {
                    fb@[j]
                } else {
                    48u8
                });
        }
        lemma_mag_frac_cmp(ia@, fa@, ib@, fb@, kf as nat);
    }
    let mut k: usize = 0;
    while k < kf
        invariant
            k <= kf,
            kf == if fa@.len() < fb@.len() {
                fb@.len()
            } else {
                fa@.len()
            },
            pa == fa@ + zeros((kf - fa@.len()) as nat),
            pb == fb@ + zeros((kf - fb@.len()) as nat),
            all_digits(pa),
            all_digits(pb),
            int_cmp(digits_val(ia@ + fa@) * pow10(fb@.len()), digits_val(ib@ + fb@) * pow10(
                fa@.len(),
            )) == int_cmp(digits_val(pa), digits_val(pb)),
            forall|j: int| 0 <= j < k ==> pa[j] == pb[j],
        decreases kf - k,
    {
        let da: u8 = if k < fa.len() {
            fa[k]
        } else {
            48
        };
        let db: u8 = if k < fb.len() {
            fb[k]
        } else {
            48
        };
        proof {
            assert(pa[k as int] == da);
            assert(pb[k as int] == db);
        }
        if da < db {
            proof {
                lemma_digits_val_lex(pa, pb, k as int);
            }
            return Ordering::Less;
        }
        if db < da {
            proof {
                lemma_digits_val_lex(pb, pa, k as int);
            }
            return Ordering::Greater;
        }
        k = k + 1;
    }
    proof {
        assert(pa =~= pb);
    }
    Ordering::Equal
}

/// Locate the numeric prefix of `s`: its sign and the index ranges of its
/// integer and fraction digits.
fn split_number(s: &[u8]) -> (r: (bool, usize, usize, usize, usize))
    ensures
        num_parse(s@).0 == r.0,
        num_parse(s@).1 == s@.subrange(r.1 as int, r.2 as int),
        num_parse(s@).2 == s@.subrange(r.3 as int, r.4 as int),
        r.1 <= r.2 <= s@.len(),
        r.3 <= r.4 <= s@.len(),
        all_digits(num_parse(s@).1),
        all_digits(num_parse(s@).2),
{
    // skip leading blanks (space and tab only)
    let mut i: usize = 0;
    while i < s.len() && (s[i] == 32 || s[i] == 9)
        invariant
            i <= s@.len(),
            next_nonws(s@, 0) == next_nonws(s@, i as int),
        decreases s@.len() - i,
    {
        i = i + 1;
    }
    if i == s.len() {
        proof {
            assert(num_parse(s@).1 =~= s@.subrange(0, 0));
            assert(num_parse(s@).2 =~= s@.subrange(0, 0));
        }
        return (false, 0, 0, 0, 0);
    }
    let neg = s[i] == 45;
    let b = if s[i] == 45 || s[i] == 43 {
        i + 1
    } else {
        i
    };
    let d1 = scan_digits(s, b);
    if d1 < s.len() && s[d1] == 46 {
        let d2 = scan_digits(s, d1 + 1);
        proof {
            lemma_next_nondigit_bounds(s@, b as int);
            lemma_next_nondigit_bounds(s@, d1 + 1);
        }
        (neg, b, d1, d1 + 1, d2)
    } else {
        proof {
            lemma_next_nondigit_bounds(s@, b as int);
            assert(num_parse(s@).2 =~= s@.subrange(d1 as int, d1 as int));
        }
        (neg, b, d1, d1, d1)
    }
}

/// First index at or after `from` whose byte is not a digit.
fn scan_digits(s: &[u8], from: usize) -> (i: usize)
    requires
        from <= s@.len(),
    ensures
        i == next_nondigit(s@, from as int),
        from <= i <= s@.len(),
{
    let mut i = from;
    while i < s.len() && 48 <= s[i] && s[i] <= 57
        invariant
            from <= i <= s@.len(),
            next_nondigit(s@, from as int) == next_nondigit(s@, i as int),
        decreases s@.len() - i,
    {
        i = i + 1;
    }
    i
}

/// Numeric comparison of two records: the exact order of their leading
/// numeric values. Records without a numeric prefix count as zero, and
/// `-0`, `+0` and `0` compare equal.
pub fn compare_numeric(a: &[u8], b: &[u8]) -> (r: Ordering)
    ensures
        r == num_cmp(a@, b@),
{
    let (neg_a, ia_s, ia_e, fa_s, fa_e) = split_number(a);
    let (neg_b, ib_s, ib_e, fb_s, fb_e) = split_number(b);
    let ia = slice_subrange(a, ia_s, ia_e);
    let fa = slice_subrange(a, fa_s, fa_e);
    let ib = slice_subrange(b, ib_s, ib_e);
    let fb = slice_subrange(b, fb_s, fb_e);
    let ghost pa = num_parse(a@);
    let ghost pb = num_parse(b@);
    let ghost ma = digits_val(pa.1 + pa.2);
    let ghost mb = digits_val(pb.1 + pb.2);
    let ghost xa = num_numerator(pa) * pow10(pb.2.len());
    let ghost xb = num_numerator(pb) * pow10(pa.2.len());
    proof {
        assert(all_digits(pa.1 + pa.2)) by {
            assert(forall|j: int|
                0 <= j < (pa.1 + pa.2).len() ==> #[trigger] (pa.1 + pa.2)[j] == if j < pa.1.len() {
                    pa.1[j]
                } else {
                    pa.2[j - pa.1.len()]
                });
        }
        assert(all_digits(pb.1 + pb.2)) by {
            assert(forall|j: int|
                0 <= j < (pb.1 + pb.2).len() ==> #[trigger] (pb.1 + pb.2)[j] == if j < pb.1.len() {
                    pb.1[j]
                } else {
                    pb.2[j - pb.1.len()]
                });
        }
        lemma_digits_val_zero_iff(pa.1 + pa.2);
        lemma_digits_val_zero_iff(pb.1 + pb.2);
        lemma_digits_val_bounds(pa.1 + pa.2);
        lemma_digits_val_bounds(pb.1 + pb.2);
        lemma_pow10_pos(pa.2.len());
        lemma_pow10_pos(pb.2.len());
    }
    let zero_a = all_zero_digits(ia) && all_zero_digits(fa);
    let zero_b = all_zero_digits(ib) && all_zero_digits(fb);
    proof {
        assert(ia@ == pa.1 && fa@ == pa.2 && ib@ == pb.1 && fb@ == pb.2);
        crate::digits::lemma_concat_zero(pa.1, pa.2);
        crate::digits::lemma_concat_zero(pb.1, pb.2);
        assert(zero_a == (ma == 0));
        assert(zero_b == (mb == 0));
        assert(ma > 0 ==> ma * pow10(pb.2.len()) > 0) by (nonlinear_arith)
            requires
                pow10(pb.2.len()) >= 1,
        ;
        assert(mb > 0 ==> mb * pow10(pa.2.len()) > 0) by (nonlinear_arith)
            requires
                pow10(pa.2.len()) >= 1,
        ;
        assert(ma == 0 ==> ma * pow10(pb.2.len()) == 0) by (nonlinear_arith);
        assert(mb == 0 ==> mb * pow10(pa.2.len()) == 0) by (nonlinear_arith);
        assert((-ma) * pow10(pb.2.len()) == -(ma * pow10(pb.2.len()))) by (nonlinear_arith);
        assert((-mb) * pow10(pa.2.len()) == -(mb * pow10(pa.2.len()))) by (nonlinear_arith);
    }
    let sign_a: i32 = if zero_a {
        0
    } else if neg_a {
        -1
    } else {
        1
    };
    let sign_b: i32 = if zero_b {
        0
    } else if neg_b {
        -1
    } else {
        1
    };
    proof {
        assert(sign_a < 0 ==> xa < 0);
        assert(sign_a == 0 ==> xa == 0);
        assert(sign_a > 0 ==> xa > 0);
        assert(sign_b < 0 ==> xb < 0);
        assert(sign_b == 0 ==> xb == 0);
        assert(sign_b > 0 ==> xb > 0);
    }
    if sign_a < sign_b {
        return Ordering::Less;
    }
    if sign_b < sign_a {
        return Ordering::Greater;
    }
    if sign_a == 0 {
        return Ordering::Equal;
    }
    let mag = cmp_magnitude(ia, fa, ib, fb);
    if sign_a > 0 {
        mag
    } else {
        proof {
            assert(xa == -(ma * pow10(pb.2.len())) && xb == -(mb * pow10(pa.2.len())));
        }
        match mag {
            Ordering::Less => Ordering::Greater,
            Ordering::Equal => Ordering::Equal,
            Ordering::Greater => Ordering::Less,
        }
    }
}

} // verus!
