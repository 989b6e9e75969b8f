//! The general-numeric sort key. A line's leading portion is parsed as a
//! decimal number (optional sign, digits with an optional point, optional
//! exponent); a line with no leading number gets the neutral zero key, so
//! malformed input never fails the sort. The key holds the number exactly:
//! a sign, the position of the most significant digit, and the significand
//! digits with leading and trailing zeros removed, so value = 0.digits
//! scaled by ten to the position. Comparison of keys is a total order.

use crate::compare::Comparison;
use crate::compare::flip;
use vstd::prelude::*;

verus! {

/// Exponents saturate at this magnitude; the significand then decides ties.
/// Any number this large is far outside every practical range.
pub const EXP_CAP: i64 = 1000000000000000;

/// The comparable value a line's leading number parses to.
#[derive(Clone, Debug, PartialEq, Eq)]
pub struct NumericKey {
    /// The sign of a nonzero value; a zero key is never negative.
    pub negative: bool,
    /// Decimal position of the significand: value = 0.digits * 10^position.
    pub position: i128,
    /// Significand digits, most significant first, no leading or trailing
    /// zero digit; empty exactly for the zero key.
    pub digits: Vec<u8>,
}

/// The shape every key produced here has.
pub open spec fn wf_key(k: NumericKey) -> bool {
    &&& forall|i: int| 0 <= i < k.digits@.len() ==> (#[trigger] k.digits@[i]) < 10
    &&& k.digits@.len() > 0 ==> k.digits@[0] != 0 && k.digits@[k.digits@.len() - 1] != 0
    &&& k.digits@.len() == 0 ==> !k.negative && k.position == 0
}

/// The mathematical content of a key: its sign, its digit position and
/// its significand digits.
pub open spec fn key_rep(k: NumericKey) -> (bool, int, Seq<u8>) {
    (k.negative, k.position as int, k.digits@)
}

/// The sign a key stands for: -1, 0 or 1.
pub open spec fn sign_of(t: (bool, int, Seq<u8>)) -> int {
    if t.2.len() == 0 {
        0
    } else if t.0 {
        -1
    } else {
        1
    }
}

/// Lexicographic order on significand digit sequences; a proper prefix is
/// smaller, since the longer sequence ends in a nonzero digit.
pub open spec fn dig_cmp(a: Seq<u8>, b: Seq<u8>) -> Comparison
    decreases a.len() + b.len(),
{
    if a.len() == 0 && b.len() == 0 {
        Comparison::Equal
    } else if a.len() == 0 {
        Comparison::Less
    } else if b.len() == 0 {
        Comparison::Greater
    } else if a[0] < b[0] {
        Comparison::Less
    } else if b[0] < a[0] {
        Comparison::Greater
    } else {
        dig_cmp(a.drop_first(), b.drop_first())
    }
}

/// Magnitude order of two nonzero keys: by digit position, then digits.
pub open spec fn mag_cmp(x: (bool, int, Seq<u8>), y: (bool, int, Seq<u8>)) -> Comparison {
    if x.1 < y.1 {
        Comparison::Less
    } else if y.1 < x.1 {
        Comparison::Greater
    } else {
        dig_cmp(x.2, y.2)
    }
}

/// The numeric order of two keys: by sign, then magnitude, the magnitude
/// order flipped on the negative side.
pub open spec fn num_cmp(x: (bool, int, Seq<u8>), y: (bool, int, Seq<u8>)) -> Comparison {
    if sign_of(x) < sign_of(y) {
        Comparison::Less
    } else if sign_of(y) < sign_of(x) {
        Comparison::Greater
    } else if sign_of(x) == 0 {
        Comparison::Equal
    } else if x.0 {
        flip(mag_cmp(x, y))
    } else {
        mag_cmp(x, y)
    }
}

proof fn lemma_dig_flip(a: Seq<u8>, b: Seq<u8>)
    ensures
        dig_cmp(b, a) == flip(dig_cmp(a, b)),
    decreases a.len() + b.len(),
{
    if a.len() > 0 && b.len() > 0 && a[0] == b[0] {
        lemma_dig_flip(a.drop_first(), b.drop_first());
    }
}

proof fn lemma_dig_trans(a: Seq<u8>, b: Seq<u8>, c: Seq<u8>)
    requires
        dig_cmp(a, b) != Comparison::Greater,
        dig_cmp(b, c) != Comparison::Greater,
    ensures
        dig_cmp(a, c) != Comparison::Greater,
    decreases a.len() + b.len() + c.len(),
{
    if a.len() == 0 {
    } else if b.len() == 0 {
        assert(dig_cmp(a, b) == Comparison::Greater);
    } else if c.len() == 0 {
        assert(dig_cmp(b, c) == Comparison::Greater);
    } else {
        if a[0] < c[0] {
        } else {
            assert(a[0] == b[0] && b[0] == c[0]);
            lemma_dig_trans(a.drop_first(), b.drop_first(), c.drop_first());
        }
    }
}

proof fn lemma_dig_refl(a: Seq<u8>)
    ensures
        dig_cmp(a, a) == Comparison::Equal,
    decreases a.len(),
{
    if a.len() > 0 {
        lemma_dig_refl(a.drop_first());
    }
}

/// A key compares equal to itself.
pub proof fn lemma_num_refl(x: (bool, int, Seq<u8>))
    ensures
        num_cmp(x, x) == Comparison::Equal,
{
    lemma_dig_refl(x.2);
}

/// Exchanging the operands flips the numeric comparison.
pub proof fn lemma_num_flip(x: (bool, int, Seq<u8>), y: (bool, int, Seq<u8>))
    ensures
        num_cmp(y, x) == flip(num_cmp(x, y)),
{
    lemma_dig_flip(x.2, y.2);
}

proof fn lemma_mag_le_trans(x: (bool, int, Seq<u8>), y: (bool, int, Seq<u8>), z: (bool, int, Seq<u8>))
    requires
        mag_cmp(x, y) != Comparison::Greater,
        mag_cmp(y, z) != Comparison::Greater,
    ensures
        mag_cmp(x, z) != Comparison::Greater,
{
    if x.1 == y.1 && y.1 == z.1 {
        lemma_dig_trans(x.2, y.2, z.2);
    }
}

/// The numeric order is transitive in its non-strict form.
pub proof fn lemma_num_le_trans(x: (bool, int, Seq<u8>), y: (bool, int, Seq<u8>), z: (bool, int, Seq<u8>))
    requires
        num_cmp(x, y) != Comparison::Greater,
        num_cmp(y, z) != Comparison::Greater,
    ensures
        num_cmp(x, z) != Comparison::Greater,
{
    if sign_of(x) == sign_of(y) && sign_of(y) == sign_of(z) && sign_of(x) != 0 {
        if x.0 {
            lemma_dig_flip(x.2, y.2);
            lemma_dig_flip(y.2, z.2);
            lemma_dig_flip(x.2, z.2);
            lemma_mag_le_trans(z, y, x);
        } else {
            lemma_mag_le_trans(x, y, z);
        }
    }
}

/// Compares two keys numerically.
pub fn compare_keys(x: &NumericKey, y: &NumericKey) -> (r: Comparison)
    ensures
        r == num_cmp(key_rep(*x), key_rep(*y)),
{
    let sx: i8 = if x.digits.len() == 0 {
        0
    } else if x.negative {
        -1
    } else {
        1
    };
    let sy: i8 = if y.digits.len() == 0 {
        0
    } else if y.negative {
        -1
    } else {
        1
    };
    if sx < sy {
        return Comparison::Less;
    }
    if sy < sx {
        return Comparison::Greater;
    }
    if sx == 0 {
        return Comparison::Equal;
    }
    let mag = if x.position < y.position {
        Comparison::Less
    } else if y.position < x.position {
        Comparison::Greater
    } else {
        compare_digits(&x.digits, &y.digits)
    };
    if x.negative {
        match mag {
            Comparison::Less => Comparison::Greater,
            Comparison::Equal => Comparison::Equal,
            Comparison::Greater => Comparison::Less,
        }
    } else {
        mag
    }
}

fn compare_digits(a: &Vec<u8>, b: &Vec<u8>) -> (r: Comparison)
    ensures
        r == dig_cmp(a@, b@),
{
    let na = a.len();
    let nb = b.len();
    let mut i: usize = 0;
    proof {
        assert(a@.skip(0) =~= a@);
        assert(b@.skip(0) =~= b@);
    }
    loop
        invariant
            0 <= i <= na,
            0 <= i <= nb,
            na == a@.len(),
            nb == b@.len(),
            dig_cmp(a@, b@) == dig_cmp(a@.skip(i as int), b@.skip(i as int)),
        decreases na - i,
    {
        if i == na && i == nb {
            return Comparison::Equal;
        }
        if i == na {
            return Comparison::Less;
        }
        if i == nb {
            return Comparison::Greater;
        }
        proof {
            assert(a@.skip(i as int)[0] == a@[i as int]);
            assert(b@.skip(i as int)[0] == b@[i as int]);
            assert(a@.skip(i as int).drop_first() =~= a@.skip(i + 1));
            assert(b@.skip(i as int).drop_first() =~= b@.skip(i + 1));
        }
        if a[i] < b[i] {
            return Comparison::Less;
        }
        if b[i] < a[i] {
            return Comparison::Greater;
        }
        i = i + 1;
    }
}

/// Whether a character is an ASCII decimal digit.
pub open spec fn is_digit(c: char) -> bool {
    48 <= (c as u32) <= 57
}

/// The numeric value of a digit character.
pub open spec fn digit_of(c: char) -> u8 {
    ((c as u32) - 48) as u8
}

/// Where the run of digit characters beginning at `i` ends.
pub open spec fn digit_run_end(s: Seq<char>, i: int) -> int
    decreases s.len() - i,
{
    if i < s.len() && is_digit(s[i]) {
        digit_run_end(s, i + 1)
    } else {
        i
    }
}

/// The digit values of `s` between `i` and `j`.
pub open spec fn digs(s: Seq<char>, i: int, j: int) -> Seq<u8> {
    Seq::new(if j >= i { (j - i) as nat } else { 0 }, |k: int| digit_of(s[i + k]))
}

proof fn lemma_digit_run_is(s: Seq<char>, i: int, k: int)
    requires
        0 <= i <= k <= s.len(),
        forall|t: int| i <= t < k ==> is_digit(#[trigger] s[t]),
        k < s.len() ==> !is_digit(s[k]),
    ensures
        digit_run_end(s, i) == k,
    decreases k - i,
{
    if i < k {
        assert(is_digit(s[i]));
        lemma_digit_run_is(s, i + 1, k);
    }
}

fn is_digit_char(c: char) -> (r: bool)
    ensures
        r == is_digit(c),
{
    48 <= (c as u32) && (c as u32) <= 57
}

/// Scans the digit run beginning at `start`, appending the digit values.
fn scan_digits(s: &str, start: usize, n: usize, out: &mut Vec<u8>) -> (end: usize)
    requires
        start <= n,
        n == s@.len(),
    ensures
        start <= end <= n,
        end as int == digit_run_end(s@, start as int),
        final(out)@ == old(out)@ + digs(s@, start as int, end as int),
        forall|t: int| old(out)@.len() <= t < final(out)@.len() ==> (#[trigger] final(out)@[t]) < 10,
{
    let mut j = start;
    proof {
        assert(out@ =~= old(out)@ + digs(s@, start as int, start as int));
    }
    while j < n && is_digit_char(s.get_char(j))
        invariant
            start <= j <= n,
            n == s@.len(),
            forall|t: int| start <= t < j ==> is_digit(#[trigger] s@[t]),
            out@ == old(out)@ + digs(s@, start as int, j as int),
        decreases n - j,
    {
        let c = s.get_char(j);
        let d: u8 = ((c as u32) - 48) as u8;
        out.push(d);
        proof {
            assert(digs(s@, start as int, j + 1) =~= digs(s@, start as int, j as int).push(
                digit_of(s@[j as int]),
            ));
            assert(out@ =~= old(out)@ + digs(s@, start as int, j + 1));
        }
        j = j + 1;
    }
    proof {
        lemma_digit_run_is(s@, start as int, j as int);
        assert(forall|t: int|
            old(out)@.len() <= t < out@.len() ==> (#[trigger] out@[t]) < 10) by {
            assert(forall|k: int|
                0 <= k < digs(s@, start as int, j as int).len() ==> is_digit(s@[start + k])
                    && (#[trigger] digs(s@, start as int, j as int)[k]) < 10);
        }
    }
    j
}

/// How many characters the optional leading sign takes.
pub open spec fn sign_len(s: Seq<char>) -> int {
    if s.len() > 0 && (s[0] == '+' || s[0] == '-') {
        1
    } else {
        0
    }
}

/// Whether the leading number is negative.
pub open spec fn is_negative(s: Seq<char>) -> bool {
    s.len() > 0 && s[0] == '-'
}

/// Where the integer digits end.
pub open spec fn int_end(s: Seq<char>) -> int {
    digit_run_end(s, sign_len(s))
}

/// Where the fraction digits begin: past the point, if one follows the
/// integer digits.
pub open spec fn frac_start(s: Seq<char>) -> int {
    if int_end(s) < s.len() && s[int_end(s)] == '.' {
        int_end(s) + 1
    } else {
        int_end(s)
    }
}

/// Where the fraction digits end.
pub open spec fn frac_end(s: Seq<char>) -> int {
    digit_run_end(s, frac_start(s))
}

/// Whether the leading portion holds at least one significand digit: only
/// then does it parse as a number at all.
pub open spec fn has_mantissa(s: Seq<char>) -> bool {
    int_end(s) > sign_len(s) || frac_end(s) > frac_start(s)
}

/// All significand digits, integer part then fraction part.
pub open spec fn mantissa_digits(s: Seq<char>) -> Seq<u8> {
    digs(s, sign_len(s), int_end(s)) + digs(s, frac_start(s), frac_end(s))
}

/// Whether an exponent marker follows the significand.
pub open spec fn has_exp_marker(s: Seq<char>) -> bool {
    frac_end(s) < s.len() && (s[frac_end(s)] == 'e' || s[frac_end(s)] == 'E')
}

/// How many characters the exponent's optional sign takes.
pub open spec fn exp_sign_len(s: Seq<char>) -> int {
    if has_exp_marker(s) && frac_end(s) + 1 < s.len() && (s[frac_end(s) + 1] == '+' || s[frac_end(
        s,
    ) + 1] == '-') {
        1
    } else {
        0
    }
}

/// Where the exponent digits begin.
pub open spec fn exp_digits_start(s: Seq<char>) -> int {
    frac_end(s) + 1 + exp_sign_len(s)
}

/// Whether a complete exponent follows: marker, optional sign, a digit.
pub open spec fn has_exp(s: Seq<char>) -> bool {
    has_exp_marker(s) && digit_run_end(s, exp_digits_start(s)) > exp_digits_start(s)
}

/// The exponent digits' value, accumulated left to right and saturating at
/// `EXP_CAP` so that it stays representable.
pub open spec fn exp_accum(s: Seq<char>, i: int, end: int, acc: int) -> int
    decreases end - i,
{
    if i < end {
        exp_accum(
            s,
            i + 1,
            end,
            if acc >= EXP_CAP as int {
                EXP_CAP as int
            } else {
                10 * acc + digit_of(s[i]) as int
            },
        )
    } else {
        acc
    }
}

/// The signed exponent of the leading number; zero when none is written.
pub open spec fn exp_value(s: Seq<char>) -> int {
    if has_exp(s) {
        let mag = exp_accum(s, exp_digits_start(s), digit_run_end(s, exp_digits_start(s)), 0);
        if exp_sign_len(s) == 1 && s[frac_end(s) + 1] == '-' {
            -mag
        } else {
            mag
        }
    } else {
        0
    }
}

/// The position of the significand before normalization: the number is
/// 0.mantissa times ten to this power.
pub open spec fn raw_position(s: Seq<char>) -> int {
    int_end(s) - sign_len(s) + exp_value(s)
}

/// How many zero digits lead `d`.
pub open spec fn count_leading_zeros(d: Seq<u8>) -> int
    decreases d.len(),
{
    if d.len() > 0 && d[0] == 0 {
        1 + count_leading_zeros(d.drop_first())
    } else {
        0
    }
}

/// How many zero digits trail `d`.
pub open spec fn count_trailing_zeros(d: Seq<u8>) -> int
    decreases d.len(),
{
    if d.len() > 0 && d[d.len() - 1] == 0 {
        1 + count_trailing_zeros(d.drop_last())
    } else {
        0
    }
}

/// What a line's leading number parses to: its sign, its normalized digit
/// position, and its normalized significand digits. A line with no leading
/// number, or with a zero significand, gives the neutral zero key.
pub open spec fn parsed_key(s: Seq<char>) -> (bool, int, Seq<u8>) {
    if !has_mantissa(s) {
        (false, 0, Seq::<u8>::empty())
    } else {
        let d = mantissa_digits(s);
        let lz = count_leading_zeros(d);
        if lz == d.len() {
            (false, 0, Seq::<u8>::empty())
        } else {
            let tz = count_trailing_zeros(d);
            (is_negative(s), raw_position(s) - lz, d.subrange(lz, d.len() - tz))
        }
    }
}

proof fn lemma_clz_is(d: Seq<u8>, k: int)
    requires
        0 <= k <= d.len(),
        forall|t: int| 0 <= t < k ==> (#[trigger] d[t]) == 0,
        k < d.len() ==> d[k] != 0,
    ensures
        count_leading_zeros(d) == k,
    decreases d.len(),
{
    if k == 0 {
    } else {
        assert(d[0] == 0);
        assert(forall|t: int| 0 <= t < k - 1 ==> (#[trigger] d.drop_first()[t]) == d[t + 1]);
        lemma_clz_is(d.drop_first(), k - 1);
    }
}

proof fn lemma_ctz_is(d: Seq<u8>, k: int)
    requires
        0 <= k <= d.len(),
        forall|t: int| d.len() - k <= t < d.len() ==> (#[trigger] d[t]) == 0,
        k < d.len() ==> d[d.len() - k - 1] != 0,
    ensures
        count_trailing_zeros(d) == k,
    decreases d.len(),
{
    if k == 0 {
    } else {
        assert(d[d.len() - 1] == 0);
        assert(forall|t: int|
            0 <= t < d.len() - 1 ==> (#[trigger] d.drop_last()[t]) == d[t]);
        lemma_ctz_is(d.drop_last(), k - 1);
    }
}

fn scan_exponent(s: &str, start: usize, n: usize) -> (r: (usize, i64))
    requires
        start <= n,
        n == s@.len(),
    ensures
        start <= r.0 <= n,
        r.0 as int == digit_run_end(s@, start as int),
        r.1 as int == exp_accum(s@, start as int, r.0 as int, 0),
        0 <= r.1 <= 10 * EXP_CAP,
{
    let mut j = start;
    let mut acc: i64 = 0;
    while j < n && is_digit_char(s.get_char(j))
        invariant
            start <= j <= n,
            n == s@.len(),
            0 <= acc <= 10 * EXP_CAP,
            forall|t: int| start <= t < j ==> is_digit(#[trigger] s@[t]),
            forall|e: int|
                j <= e <= n ==> exp_accum(s@, start as int, e, 0) == exp_accum(
                    s@,
                    j as int,
                    e,
                    acc as int,
                ),
        decreases n - j,
    {
        let c = s.get_char(j);
        let d: u8 = ((c as u32) - 48) as u8;
        proof {
            assert(digit_of(s@[j as int]) == d);
        }
        acc = if acc >= EXP_CAP {
            EXP_CAP
        } else {
            10 * acc + (d as i64)
        };
        j = j + 1;
    }
    proof {
        lemma_digit_run_is(s@, start as int, j as int);
    }
    (j, acc)
}

/// Parses the leading portion of a line as a decimal number and returns its
/// key; a line with no leading number gets the neutral zero key.
#[verifier::rlimit(100)]
pub fn numeric_key(input: &str) -> (r: NumericKey)
    ensures
        wf_key(r),
        key_rep(r) == parsed_key(input@),
{
    let n = input.unicode_len();
    let mut neg = false;
    let mut i: usize = 0;
    if n > 0 {
        let c0 = input.get_char(0);
        if c0 == '+' || c0 == '-' {
            i = 1;
            neg = c0 == '-';
        }
    }
    proof {
        assert(i as int == sign_len(input@));
        assert(neg == is_negative(input@));
    }
    let mut mant: Vec<u8> = Vec::new();
    let iend = scan_digits(input, i, n, &mut mant);
    let mut fstart = iend;
    if iend < n && input.get_char(iend) == '.' {
        fstart = iend + 1;
    }
    proof {
        assert(fstart as int == frac_start(input@));
    }
    let fend = scan_digits(input, fstart, n, &mut mant);
    if iend == i && fend == fstart {
        assert(!has_mantissa(input@));
        return NumericKey { negative: false, position: 0, digits: Vec::new() };
    }
    assert(mant@ == mantissa_digits(input@));
    // the exponent, if a complete one is written
    let mut exp: i64 = 0;
    let mut eneg = false;
    if fend < n {
        let ce = input.get_char(fend);
        if ce == 'e' || ce == 'E' {
            let mut q = fend + 1;
            let mut sign_here = false;
            if q < n {
                let cs = input.get_char(q);
                if cs == '+' || cs == '-' {
                    sign_here = true;
                    q = q + 1;
                }
            }
            proof {
                assert(q as int == exp_digits_start(input@));
            }
            let (eend, acc) = scan_exponent(input, q, n);
            if eend > q {
                let cs_minus = sign_here && input.get_char(fend + 1) == '-';
                exp = if cs_minus {
                    -acc
                } else {
                    acc
                };
            }
        }
    }
    proof {
        assert(exp as int == exp_value(input@));
    }
    // strip leading zeros
    let mut lz: usize = 0;
    while lz < mant.len() && mant[lz] == 0
        invariant
            0 <= lz <= mant@.len(),
            forall|t: int| 0 <= t < lz ==> (#[trigger] mant@[t]) == 0,
        decreases mant@.len() - lz,
    {
        lz = lz + 1;
    }
    proof {
        lemma_clz_is(mant@, lz as int);
    }
    if lz == mant.len() {
        return NumericKey { negative: false, position: 0, digits: Vec::new() };
    }
    // strip trailing zeros
    let mut m = mant.len();
    while m > 0 && mant[m - 1] == 0
        invariant
            lz < m <= mant@.len(),
            mant@[lz as int] != 0,
            forall|t: int| m <= t < mant@.len() ==> (#[trigger] mant@[t]) == 0,
        decreases m,
    {
        m = m - 1;
    }
    proof {
        lemma_ctz_is(mant@, (mant@.len() - m) as int);
    }
    let mut nd: Vec<u8> = Vec::new();
    let mut t = lz;
    while t < m
        invariant
            lz <= t <= m <= mant@.len(),
            nd@ == mant@.subrange(lz as int, t as int),
        decreases m - t,
    {
        let d = mant[t];
        nd.push(d);
        proof {
            assert(mant@.subrange(lz as int, t + 1) =~= mant@.subrange(lz as int, t as int).push(
                mant@[t as int],
            ));
        }
        t = t + 1;
    }
    let pos: i128 = (iend as i128) - (i as i128) + (exp as i128) - (lz as i128);
    NumericKey { negative: neg, position: pos, digits: nd }
}

} // verus!
