//! The comparison engine.
//!
//! Records are compared key by key (or whole) under the active transform —
//! numeric, case-folded, or raw unsigned-byte order — and ties fall back to
//! a last-resort raw comparison of the whole records unless stable or
//! unique mode suppresses it. Reverse applies to whichever comparison
//! decides.

use vstd::prelude::*;

use core::cmp::Ordering;

use crate::config::Config;
use crate::key::{extract_key, spec_extract_key, KeySpec};
use crate::numeric::num_cmp;

pub use crate::numeric::compare_numeric;

verus! {

/// ASCII case folding of one byte: `a`-`z` map to `A`-`Z`, everything else
/// (upper case and all bytes at or above 0x80 included) passes through.
pub open spec fn fold_byte(b: u8) -> u8 {
    if 97 <= b <= 122 {
        (b - 32) as u8
    } else {
        b
    }
}

/// A byte sequence folded byte by byte.
pub open spec fn fold_seq(s: Seq<u8>) -> Seq<u8> {
    s.map(|_i: int, b: u8| fold_byte(b))
}

/// Lexicographic order on unsigned byte values: every byte counts as a
/// value in 0..=255, so 0xFF sorts after 0x7F.
pub open spec fn lex_cmp(a: Seq<u8>, b: Seq<u8>) -> Ordering
    decreases a.len(),
{
    if a.len() == 0 && b.len() == 0 {
        Ordering::Equal
    } else if a.len() == 0 {
        Ordering::Less
    } else if b.len() == 0 {
        Ordering::Greater
    } else if a[0] < b[0] {
        Ordering::Less
    } else if b[0] < a[0] {
        Ordering::Greater
    } else {
        lex_cmp(a.skip(1), b.skip(1))
    }
}

/// The transform-selected comparison: numeric when `numeric`, else folded
/// when `fold`, else raw bytes.
pub open spec fn transform_cmp(a: Seq<u8>, b: Seq<u8>, numeric: bool, fold: bool) -> Ordering {
    if numeric {
        num_cmp(a, b)
    } else if fold {
        lex_cmp(fold_seq(a), fold_seq(b))
    } else {
        lex_cmp(a, b)
    }
}

/// Key-by-key comparison: the first key whose extracted spans differ under
/// the transform decides; all keys equal means Equal.
pub open spec fn keys_cmp(
    a: Seq<u8>,
    b: Seq<u8>,
    keys: Seq<KeySpec>,
    sep: Option<u8>,
    numeric: bool,
    fold: bool,
) -> Ordering
    decreases keys.len(),
{
    if keys.len() == 0 {
        Ordering::Equal
    } else {
        let c = transform_cmp(
            spec_extract_key(a, keys[0], sep),
            spec_extract_key(b, keys[0], sep),
            numeric,
            fold,
        );
        if c != Ordering::Equal {
            c
        } else {
            keys_cmp(a, b, keys.skip(1), sep, numeric, fold)
        }
    }
}

/// The key phase of the comparison: whole records under the transform when
/// no keys are configured, else key by key.
pub open spec fn spec_by_keys(a: Seq<u8>, b: Seq<u8>, c: Config) -> Ordering {
    if c.keys@.len() == 0 {
        transform_cmp(a, b, c.numeric, c.fold_case)
    } else {
        keys_cmp(a, b, c.keys@, c.field_separator, c.numeric, c.fold_case)
    }
}

/// Swap Less and Greater when `reverse` is set; Equal is unchanged.
pub open spec fn spec_reverse(o: Ordering, reverse: bool) -> Ordering {
    if reverse {
        match o {
            Ordering::Less => Ordering::Greater,
            Ordering::Equal => Ordering::Equal,
            Ordering::Greater => Ordering::Less,
        }
    } else {
        o
    }
}

/// The comparison before reverse is applied: the key phase decides if it
/// is not Equal; a tie falls to the raw last-resort comparison of the
/// whole records unless stable or unique mode suppresses it.
pub open spec fn spec_forward_cmp(a: Seq<u8>, b: Seq<u8>, c: Config) -> Ordering {
    let k = spec_by_keys(a, b, c);
    if k != Ordering::Equal {
        k
    } else if !c.stable && !c.unique {
        lex_cmp(a, b)
    } else {
        Ordering::Equal
    }
}

/// The full comparison contract: the forward comparison, with reverse
/// applied to whichever of its phases decided.
pub open spec fn spec_compare_records(a: Seq<u8>, b: Seq<u8>, c: Config) -> Ordering {
    spec_reverse(spec_forward_cmp(a, b, c), c.reverse)
}

/// A shared prefix of equal bytes does not affect the lexicographic order.
pub proof fn lemma_lex_cmp_skip(a: Seq<u8>, b: Seq<u8>, i: int)
    requires
        0 <= i <= a.len(),
        i <= b.len(),
        forall|j: int| 0 <= j < i ==> a[j] == b[j],
    ensures
        lex_cmp(a, b) == lex_cmp(a.skip(i), b.skip(i)),
    decreases i,
{
    if i > 0 {
        assert(a[0] == b[0]);
        assert(lex_cmp(a, b) == lex_cmp(a.skip(1), b.skip(1)));
        assert(forall|j: int|
            0 <= j < i - 1 ==> #[trigger] a.skip(1)[j] == a[j + 1] && b.skip(1)[j] == b[j + 1]);
        lemma_lex_cmp_skip(a.skip(1), b.skip(1), i - 1);
        assert(a.skip(1).skip(i - 1) =~= a.skip(i));
        assert(b.skip(1).skip(i - 1) =~= b.skip(i));
    } else {
        assert(a.skip(0) =~= a);
        assert(b.skip(0) =~= b);
    }
}

/// The lexicographic order is Equal exactly on equal sequences.
pub proof fn lemma_lex_cmp_eq_iff(a: Seq<u8>, b: Seq<u8>)
    ensures
        (lex_cmp(a, b) == Ordering::Equal) <==> (a == b),
    decreases a.len(),
{
    if a.len() == 0 && b.len() == 0 {
        assert(a =~= b);
    } else if a.len() == 0 || b.len() == 0 {
        assert(a != b);
    } else if a[0] < b[0] || b[0] < a[0] {
        if a == b {
            assert(a[0] == b[0]);
        }
    } else {
        lemma_lex_cmp_eq_iff(a.skip(1), b.skip(1));
        if lex_cmp(a, b) == Ordering::Equal {
            assert(a.skip(1) == b.skip(1));
            assert forall|j: int| 0 <= j < a.len() implies a[j] == b[j] by {
                if j >= 1 {
                    assert(a.skip(1)[j - 1] == a[j]);
                    assert(b.skip(1)[j - 1] == b[j]);
                }
            }
            assert(a =~= b);
        }
        if a == b {
            assert(a.skip(1) =~= b.skip(1));
        }
    }
}

/// Raw bytewise comparison using unsigned byte values; this is both the
/// default order and the last-resort comparison.
pub fn compare_bytes_raw(a: &[u8], b: &[u8]) -> (r: Ordering)
    ensures
        r == lex_cmp(a@, b@),
{
    let mut i: usize = 0;
    while i < a.len() && i < b.len()
        invariant
            i <= a@.len(),
            i <= b@.len(),
            forall|j: int| 0 <= j < i ==> a@[j] == b@[j],
        decreases a@.len() - i,
    {
        if a[i] < b[i] {
            proof {
                lemma_lex_cmp_skip(a@, b@, i as int);
                assert(a@.skip(i as int)[0] == a@[i as int]);
                assert(b@.skip(i as int)[0] == b@[i as int]);
            }
            return Ordering::Less;
        }
        if b[i] < a[i] {
            proof {
                lemma_lex_cmp_skip(a@, b@, i as int);
                assert(a@.skip(i as int)[0] == a@[i as int]);
                assert(b@.skip(i as int)[0] == b@[i as int]);
            }
            return Ordering::Greater;
        }
        i = i + 1;
    }
    proof {
        lemma_lex_cmp_skip(a@, b@, i as int);
    }
    if a.len() < b.len() {
        Ordering::Less
    } else if b.len() < a.len() {
        Ordering::Greater
    } else {
        Ordering::Equal
    }
}

/// Case-folded comparison: both records are compared as if lower-case
/// ASCII letters were upper case, without materializing folded copies.
pub fn compare_fold_case(a: &[u8], b: &[u8]) -> (r: Ordering)
    ensures
        r == lex_cmp(fold_seq(a@), fold_seq(b@)),
{
    let ghost fa = fold_seq(a@);
    let ghost fb = fold_seq(b@);
    let mut i: usize = 0;
    while i < a.len() && i < b.len()
        invariant
            i <= a@.len(),
            i <= b@.len(),
            fa == fold_seq(a@),
            fb == fold_seq(b@),
            forall|j: int| 0 <= j < i ==> fa[j] == fb[j],
        decreases a@.len() - i,
    {
        let ca = if 97 <= a[i] && a[i] <= 122 {
            a[i] - 32
        } else {
            a[i]
        };
        let cb = if 97 <= b[i] && b[i] <= 122 {
            b[i] - 32
        } else {
            b[i]
        };
        proof {
            assert(fa[i as int] == fold_byte(a@[i as int]));
            assert(fb[i as int] == fold_byte(b@[i as int]));
        }
        if ca < cb {
            proof {
                lemma_lex_cmp_skip(fa, fb, i as int);
                assert(fa.skip(i as int)[0] == fa[i as int]);
                assert(fb.skip(i as int)[0] == fb[i as int]);
            }
            return Ordering::Less;
        }
        if cb < ca {
            proof {
                lemma_lex_cmp_skip(fa, fb, i as int);
                assert(fa.skip(i as int)[0] == fa[i as int]);
                assert(fb.skip(i as int)[0] == fb[i as int]);
            }
            return Ordering::Greater;
        }
        i = i + 1;
    }
    proof {
        lemma_lex_cmp_skip(fa, fb, i as int);
    }
    if a.len() < b.len() {
        Ordering::Less
    } else if b.len() < a.len() {
        Ordering::Greater
    } else {
        Ordering::Equal
    }
}

/// Compare under the configured transform.
fn compare_with_options(a: &[u8], b: &[u8], config: &Config) -> (r: Ordering)
    ensures
        r == transform_cmp(a@, b@, config.numeric, config.fold_case),
{
    if config.numeric {
        compare_numeric(a, b)
    } else if config.fold_case {
        compare_fold_case(a, b)
    } else {
        compare_bytes_raw(a, b)
    }
}

/// Compare by the configured key specifications, or by whole records when
/// none are configured.
fn compare_by_keys(a: &[u8], b: &[u8], config: &Config) -> (r: Ordering)
    ensures
        r == spec_by_keys(a@, b@, *config),
{
    if config.keys.len() == 0 {
        return compare_with_options(a, b, config);
    }
    proof {
        assert(config.keys@.skip(0) =~= config.keys@);
    }
    let mut i: usize = 0;
    while i < config.keys.len()
        invariant
            i <= config.keys@.len(),
            keys_cmp(a@, b@, config.keys@, config.field_separator, config.numeric, config.fold_case)
                == keys_cmp(
                a@,
                b@,
                config.keys@.skip(i as int),
                config.field_separator,
                config.numeric,
                config.fold_case,
            ),
        decreases config.keys@.len() - i,
    {
        let key_a = extract_key(a, &config.keys[i], config.field_separator);
        let key_b = extract_key(b, &config.keys[i], config.field_separator);
        let result = compare_with_options(key_a.as_slice(), key_b.as_slice(), config);
        proof {
            assert(config.keys@.skip(i as int)[0] == config.keys@[i as int]);
            assert(config.keys@.skip(i as int).skip(1) =~= config.keys@.skip(i + 1));
        }
        if !matches!(result, Ordering::Equal) {
            return result;
        }
        i = i + 1;
    }
    Ordering::Equal
}

/// Apply reverse if configured.
fn maybe_reverse(ord: Ordering, reverse: bool) -> (r: Ordering)
    ensures
        r == spec_reverse(ord, reverse),
{
    if reverse {
        match ord {
            Ordering::Less => Ordering::Greater,
            Ordering::Equal => Ordering::Equal,
            Ordering::Greater => Ordering::Less,
        }
    } else {
        ord
    }
}

/// The sole comparison entry point: key phase, then — on a tie with
/// neither stable nor unique set — the raw last-resort comparison of the
/// whole records, with reverse applied to whichever decided.
pub fn compare_records(a: &[u8], b: &[u8], config: &Config) -> (r: Ordering)
    ensures
        r == spec_compare_records(a@, b@, *config),
{
    let key_result = compare_by_keys(a, b, config);
    if !matches!(key_result, Ordering::Equal) {
        return maybe_reverse(key_result, config.reverse);
    }
    if config.use_last_resort() {
        let last_resort = compare_bytes_raw(a, b);
        return maybe_reverse(last_resort, config.reverse);
    }
    Ordering::Equal
}

/// Swapping the operands of the lexicographic order flips the result.
pub proof fn lemma_lex_cmp_flip(a: Seq<u8>, b: Seq<u8>)
    ensures
        lex_cmp(b, a) == spec_reverse(lex_cmp(a, b), true),
    decreases a.len(),
{
    if a.len() > 0 && b.len() > 0 && !(a[0] < b[0]) && !(b[0] < a[0]) {
        lemma_lex_cmp_flip(a.skip(1), b.skip(1));
    }
}

proof fn lemma_transform_flip(a: Seq<u8>, b: Seq<u8>, numeric: bool, fold: bool)
    ensures
        transform_cmp(b, a, numeric, fold) == spec_reverse(transform_cmp(a, b, numeric, fold), true),
{
    if numeric {
    } else if fold {
        lemma_lex_cmp_flip(fold_seq(a), fold_seq(b));
    } else {
        lemma_lex_cmp_flip(a, b);
    }
}

proof fn lemma_keys_cmp_flip(
    a: Seq<u8>,
    b: Seq<u8>,
    keys: Seq<KeySpec>,
    sep: Option<u8>,
    numeric: bool,
    fold: bool,
)
    ensures
        keys_cmp(b, a, keys, sep, numeric, fold) == spec_reverse(
            keys_cmp(a, b, keys, sep, numeric, fold),
            true,
        ),
    decreases keys.len(),
{
    if keys.len() > 0 {
        lemma_transform_flip(
            spec_extract_key(a, keys[0], sep),
            spec_extract_key(b, keys[0], sep),
            numeric,
            fold,
        );
        lemma_keys_cmp_flip(a, b, keys.skip(1), sep, numeric, fold);
    }
}

/// Comparison antisymmetry: swapping the two records yields the exact
/// opposite result, whatever the configuration.
pub proof fn lemma_compare_flip(a: Seq<u8>, b: Seq<u8>, c: Config)
    ensures
        spec_compare_records(b, a, c) == spec_reverse(spec_compare_records(a, b, c), true),
{
    lemma_forward_flip(a, b, c);
}

/// The lexicographic order is transitive.
pub proof fn lemma_lex_cmp_le_trans(a: Seq<u8>, b: Seq<u8>, c: Seq<u8>)
    requires
        lex_cmp(a, b) != Ordering::Greater,
        lex_cmp(b, c) != Ordering::Greater,
    ensures
        lex_cmp(a, c) != Ordering::Greater,
    decreases a.len(),
{
    if a.len() > 0 {
        assert(b.len() > 0);
        assert(c.len() > 0);
        if a[0] == b[0] && b[0] == c[0] {
            lemma_lex_cmp_le_trans(a.skip(1), b.skip(1), c.skip(1));
        }
    }
}

/// The transform-selected comparison is transitive.
proof fn lemma_transform_le_trans(x: Seq<u8>, y: Seq<u8>, z: Seq<u8>, numeric: bool, fold: bool)
    requires
        transform_cmp(x, y, numeric, fold) != Ordering::Greater,
        transform_cmp(y, z, numeric, fold) != Ordering::Greater,
    ensures
        transform_cmp(x, z, numeric, fold) != Ordering::Greater,
{
    if numeric {
        crate::numeric::lemma_num_cmp_le_trans(x, y, z);
    } else if fold {
        lemma_lex_cmp_le_trans(fold_seq(x), fold_seq(y), fold_seq(z));
    } else {
        lemma_lex_cmp_le_trans(x, y, z);
    }
}

/// A strict step anywhere in a chain keeps the whole chain strict.
proof fn lemma_transform_lt_trans(x: Seq<u8>, y: Seq<u8>, z: Seq<u8>, numeric: bool, fold: bool)
    requires
        transform_cmp(x, y, numeric, fold) != Ordering::Greater,
        transform_cmp(y, z, numeric, fold) != Ordering::Greater,
        transform_cmp(x, y, numeric, fold) == Ordering::Less || transform_cmp(y, z, numeric, fold)
            == Ordering::Less,
    ensures
        transform_cmp(x, z, numeric, fold) == Ordering::Less,
{
    lemma_transform_le_trans(x, y, z, numeric, fold);
    if transform_cmp(x, z, numeric, fold) != Ordering::Less {
        // then x and z tie, which collapses the whole chain into ties
        lemma_transform_flip(x, z, numeric, fold);
        if transform_cmp(x, y, numeric, fold) == Ordering::Less {
            lemma_transform_le_trans(z, x, y, numeric, fold);
            lemma_transform_flip(y, z, numeric, fold);
            lemma_transform_le_trans(y, z, x, numeric, fold);
            lemma_transform_flip(x, y, numeric, fold);
            assert(false);
        } else {
            lemma_transform_le_trans(y, z, x, numeric, fold);
            lemma_transform_flip(x, y, numeric, fold);
            lemma_transform_le_trans(z, x, y, numeric, fold);
            lemma_transform_flip(y, z, numeric, fold);
            assert(false);
        }
    }
}

/// Ties compose: two records tying with a common middle tie with each
/// other.
proof fn lemma_transform_eq_trans(x: Seq<u8>, y: Seq<u8>, z: Seq<u8>, numeric: bool, fold: bool)
    requires
        transform_cmp(x, y, numeric, fold) == Ordering::Equal,
        transform_cmp(y, z, numeric, fold) == Ordering::Equal,
    ensures
        transform_cmp(x, z, numeric, fold) == Ordering::Equal,
{
    lemma_transform_le_trans(x, y, z, numeric, fold);
    lemma_transform_flip(x, y, numeric, fold);
    lemma_transform_flip(y, z, numeric, fold);
    lemma_transform_le_trans(z, y, x, numeric, fold);
    lemma_transform_flip(x, z, numeric, fold);
}

/// The key-by-key comparison is transitive.
proof fn lemma_keys_cmp_le_trans(
    a: Seq<u8>,
    b: Seq<u8>,
    c: Seq<u8>,
    keys: Seq<KeySpec>,
    sep: Option<u8>,
    numeric: bool,
    fold: bool,
)
    requires
        keys_cmp(a, b, keys, sep, numeric, fold) != Ordering::Greater,
        keys_cmp(b, c, keys, sep, numeric, fold) != Ordering::Greater,
    ensures
        keys_cmp(a, c, keys, sep, numeric, fold) != Ordering::Greater,
    decreases keys.len(),
{
    if keys.len() > 0 {
        let ka = spec_extract_key(a, keys[0], sep);
        let kb = spec_extract_key(b, keys[0], sep);
        let kc = spec_extract_key(c, keys[0], sep);
        let t1 = transform_cmp(ka, kb, numeric, fold);
        let t2 = transform_cmp(kb, kc, numeric, fold);
        assert(t1 != Ordering::Greater);
        assert(t2 != Ordering::Greater);
        if t1 == Ordering::Equal && t2 == Ordering::Equal {
            lemma_transform_eq_trans(ka, kb, kc, numeric, fold);
            lemma_keys_cmp_le_trans(a, b, c, keys.skip(1), sep, numeric, fold);
        } else {
            lemma_transform_lt_trans(ka, kb, kc, numeric, fold);
        }
    }
}

/// The forward comparison is transitive.
proof fn lemma_forward_le_trans(a: Seq<u8>, b: Seq<u8>, c: Seq<u8>, cfg: Config)
    requires
        spec_forward_cmp(a, b, cfg) != Ordering::Greater,
        spec_forward_cmp(b, c, cfg) != Ordering::Greater,
    ensures
        spec_forward_cmp(a, c, cfg) != Ordering::Greater,
{
    let k1 = spec_by_keys(a, b, cfg);
    let k2 = spec_by_keys(b, c, cfg);
    if cfg.keys@.len() == 0 {
        // the key phase is one transform comparison of the whole records
        if k1 == Ordering::Equal && k2 == Ordering::Equal {
            lemma_transform_eq_trans(a, b, c, cfg.numeric, cfg.fold_case);
            if !cfg.stable && !cfg.unique {
                lemma_lex_cmp_le_trans(a, b, c);
            }
        } else {
            lemma_transform_lt_trans(a, b, c, cfg.numeric, cfg.fold_case);
        }
    } else {
        if k1 == Ordering::Equal && k2 == Ordering::Equal {
            lemma_keys_cmp_le_trans(a, b, c, cfg.keys@, cfg.field_separator, cfg.numeric,
                cfg.fold_case);
            lemma_keys_eq_trans(a, b, c, cfg.keys@, cfg.field_separator, cfg.numeric,
                cfg.fold_case);
            if !cfg.stable && !cfg.unique {
                lemma_lex_cmp_le_trans(a, b, c);
            }
        } else {
            // a strict key-phase result: the chain stays strict
            lemma_keys_cmp_le_trans(a, b, c, cfg.keys@, cfg.field_separator, cfg.numeric,
                cfg.fold_case);
            lemma_keys_lt_trans(a, b, c, cfg.keys@, cfg.field_separator, cfg.numeric,
                cfg.fold_case);
        }
    }
}

/// Key-phase ties compose into a tie.
proof fn lemma_keys_eq_trans(
    a: Seq<u8>,
    b: Seq<u8>,
    c: Seq<u8>,
    keys: Seq<KeySpec>,
    sep: Option<u8>,
    numeric: bool,
    fold: bool,
)
    requires
        keys_cmp(a, b, keys, sep, numeric, fold) == Ordering::Equal,
        keys_cmp(b, c, keys, sep, numeric, fold) == Ordering::Equal,
    ensures
        keys_cmp(a, c, keys, sep, numeric, fold) == Ordering::Equal,
    decreases keys.len(),
{
    if keys.len() > 0 {
        let ka = spec_extract_key(a, keys[0], sep);
        let kb = spec_extract_key(b, keys[0], sep);
        let kc = spec_extract_key(c, keys[0], sep);
        lemma_transform_eq_trans(ka, kb, kc, numeric, fold);
        lemma_keys_eq_trans(a, b, c, keys.skip(1), sep, numeric, fold);
    }
}

/// A strict key-phase step keeps the key phase strict.
proof fn lemma_keys_lt_trans(
    a: Seq<u8>,
    b: Seq<u8>,
    c: Seq<u8>,
    keys: Seq<KeySpec>,
    sep: Option<u8>,
    numeric: bool,
    fold: bool,
)
    requires
        keys_cmp(a, b, keys, sep, numeric, fold) != Ordering::Greater,
        keys_cmp(b, c, keys, sep, numeric, fold) != Ordering::Greater,
        keys_cmp(a, b, keys, sep, numeric, fold) == Ordering::Less || keys_cmp(
            b,
            c,
            keys,
            sep,
            numeric,
            fold,
        ) == Ordering::Less,
    ensures
        keys_cmp(a, c, keys, sep, numeric, fold) == Ordering::Less,
    decreases keys.len(),
{
    if keys.len() > 0 {
        let ka = spec_extract_key(a, keys[0], sep);
        let kb = spec_extract_key(b, keys[0], sep);
        let kc = spec_extract_key(c, keys[0], sep);
        let t1 = transform_cmp(ka, kb, numeric, fold);
        let t2 = transform_cmp(kb, kc, numeric, fold);
        if t1 == Ordering::Equal && t2 == Ordering::Equal {
            lemma_transform_eq_trans(ka, kb, kc, numeric, fold);
            lemma_keys_lt_trans(a, b, c, keys.skip(1), sep, numeric, fold);
        } else {
            lemma_transform_lt_trans(ka, kb, kc, numeric, fold);
        }
    }
}

/// The comparison is transitive: two steps that do not place the left
/// record after the right compose into one, for every configuration.
/// Together with antisymmetry this makes the comparison a total order
/// up to ties.
pub proof fn lemma_compare_le_trans(a: Seq<u8>, b: Seq<u8>, c: Seq<u8>, cfg: Config)
    requires
        spec_compare_records(a, b, cfg) != Ordering::Greater,
        spec_compare_records(b, c, cfg) != Ordering::Greater,
    ensures
        spec_compare_records(a, c, cfg) != Ordering::Greater,
{
    if !cfg.reverse {
        lemma_forward_le_trans(a, b, c, cfg);
    } else {
        // reversed: the hypotheses say the forward order is not Less,
        // so flip the operands and use forward transitivity
        lemma_forward_flip(a, b, cfg);
        lemma_forward_flip(b, c, cfg);
        lemma_forward_le_trans(c, b, a, cfg);
        lemma_forward_flip(a, c, cfg);
    }
}

/// Antisymmetry of the forward comparison.
proof fn lemma_forward_flip(a: Seq<u8>, b: Seq<u8>, c: Config)
    ensures
        spec_forward_cmp(b, a, c) == spec_reverse(spec_forward_cmp(a, b, c), true),
{
    if c.keys@.len() == 0 {
        lemma_transform_flip(a, b, c.numeric, c.fold_case);
    } else {
        lemma_keys_cmp_flip(a, b, c.keys@, c.field_separator, c.numeric, c.fold_case);
    }
    lemma_lex_cmp_flip(a, b);
}

/// Unsigned-byte order: for any bytes x < y, the one-byte record holding x
/// compares Less than the one holding y under a default configuration
/// (no keys, raw transform, no reverse).
pub proof fn lemma_unsigned_byte_order(x: u8, y: u8, c: Config)
    requires
        x < y,
        c.keys@.len() == 0,
        !c.numeric,
        !c.fold_case,
        !c.reverse,
    ensures
        spec_compare_records(seq![x], seq![y], c) == Ordering::Less,
{
    assert(lex_cmp(seq![x], seq![y]) == Ordering::Less) by {
        assert(seq![x][0] == x && seq![y][0] == y);
    }
}

/// Last-resort totality: with stable and unique both off, records with
/// different bytes never compare Equal.
pub proof fn lemma_last_resort_total(a: Seq<u8>, b: Seq<u8>, c: Config)
    requires
        a != b,
        !c.stable,
        !c.unique,
    ensures
        spec_compare_records(a, b, c) != Ordering::Equal,
{
    lemma_lex_cmp_eq_iff(a, b);
}

/// Last-resort suppression: when the key phase ties and stable or unique
/// is set, the whole comparison is Equal.
pub proof fn lemma_last_resort_suppressed(a: Seq<u8>, b: Seq<u8>, c: Config)
    requires
        spec_by_keys(a, b, c) == Ordering::Equal,
        c.stable || c.unique,
    ensures
        spec_compare_records(a, b, c) == Ordering::Equal,
{
}

/// Reverse involution: under two configurations differing only in
/// `reverse`, a non-Equal result with reverse off becomes its exact
/// opposite with reverse on, and an Equal result stays Equal.
pub proof fn lemma_reverse_opposite(a: Seq<u8>, b: Seq<u8>, c1: Config, c2: Config)
    requires
        !c1.reverse,
        c2.reverse,
        c1.numeric == c2.numeric,
        c1.fold_case == c2.fold_case,
        c1.stable == c2.stable,
        c1.unique == c2.unique,
        c1.keys@ == c2.keys@,
        c1.field_separator == c2.field_separator,
    ensures
        spec_compare_records(a, b, c1) != Ordering::Equal ==> spec_compare_records(a, b, c2)
            == spec_reverse(spec_compare_records(a, b, c1), true),
        spec_compare_records(a, b, c1) == Ordering::Equal ==> spec_compare_records(a, b, c2)
            == Ordering::Equal,
{
    assert(spec_by_keys(a, b, c1) == spec_by_keys(a, b, c2));
}

} // verus!
