//! Decimal number text: rendering and parsing of the integers and fixed-point
//! decimals that appear in beatmap timing fields, and the exact scaled
//! division that the rate transform uses in place of floating point.

use vstd::arithmetic::div_mod::{lemma_fundamental_div_mod, lemma_fundamental_div_mod_converse};
use vstd::prelude::*;
use vstd::slice::slice_index_get;

use crate::text::{find_first, DOT, MINUS};

verus! {

pub open spec fn pow10(k: nat) -> nat
    decreases k,
{
    if k == 0 {
        1
    } else {
        10 * pow10((k - 1) as nat)
    }
}

pub proof fn lemma_pow10_pos(k: nat)
    ensures
        pow10(k) >= 1,
    decreases k,
{
    if k > 0 {
        lemma_pow10_pos((k - 1) as nat);
    }
}

pub proof fn lemma_pow10_mono(a: nat, b: nat)
    requires
        a <= b,
    ensures
        pow10(a) <= pow10(b),
    decreases b,
{
    if a < b {
        lemma_pow10_mono(a, (b - 1) as nat);
        lemma_pow10_pos((b - 1) as nat);
    }
}

pub proof fn lemma_pow10_add(a: nat, b: nat)
    ensures
        pow10(a + b) == pow10(a) * pow10(b),
    decreases a,
{
    if a == 0 {
        assert(pow10(0 + b) == 1 * pow10(b)) by (nonlinear_arith);
    } else {
        lemma_pow10_add((a - 1) as nat, b);
        assert(pow10(a + b) == 10 * pow10((a - 1) as nat + b));
        assert(10 * (pow10((a - 1) as nat) * pow10(b)) == (10 * pow10((a - 1) as nat)) * pow10(
            b,
        )) by (nonlinear_arith);
    }
}

pub proof fn lemma_pow10_19()
    ensures
        pow10(19) == 10000000000000000000,
{
    reveal_with_fuel(pow10, 21);
}

/// `10^k` as a machine integer.
pub fn pow10_u64(k: u32) -> (r: u64)
    requires
        k <= 19,
    ensures
        r == pow10(k as nat),
{
    let mut r: u64 = 1;
    let mut i: u32 = 0;
    while i < k
        invariant
            0 <= i <= k <= 19,
            r == pow10(i as nat),
        decreases k - i,
    {
        proof {
            lemma_pow10_mono(i as nat + 1, 19);
            lemma_pow10_19();
        }
        r = r * 10;
        i = i + 1;
    }
    r
}

pub open spec fn is_digit(b: u8) -> bool {
    48 <= b <= 57
}

/// The decimal digits of `n`, most significant first.
pub open spec fn dec_digits(n: nat) -> Seq<u8>
    decreases n,
{
    if n < 10 {
        seq![(48 + n) as u8]
    } else {
        dec_digits(n / 10) + seq![(48 + n % 10) as u8]
    }
}

pub open spec fn all_digits(s: Seq<u8>) -> bool {
    s.len() >= 1 && forall|i: int| 0 <= i < s.len() ==> is_digit(s[i])
}

/// The numeric value of a digit string.
pub open spec fn val_digits(s: Seq<u8>) -> int
    decreases s.len(),
{
    if s.len() == 0 {
        0
    } else {
        val_digits(s.drop_last()) * 10 + (s.last() - 48)
    }
}

pub proof fn lemma_val_digits_nonneg(s: Seq<u8>)
    requires
        forall|i: int| 0 <= i < s.len() ==> is_digit(s[i]),
    ensures
        val_digits(s) >= 0,
    decreases s.len(),
{
    if s.len() > 0 {
        lemma_val_digits_nonneg(s.drop_last());
    }
}

pub proof fn lemma_dec_digits(n: nat)
    ensures
        all_digits(dec_digits(n)),
        val_digits(dec_digits(n)) == n,
        n >= 1 ==> dec_digits(n)[0] != 48,
    decreases n,
{
    if n < 10 {
        let s = dec_digits(n);
        assert(s =~= seq![(48 + n) as u8]);
        assert(s.drop_last() =~= Seq::<u8>::empty());
        assert(val_digits(s) == val_digits(s.drop_last()) * 10 + (s.last() - 48));
        assert(val_digits(s) == n);
    } else {
        lemma_dec_digits(n / 10);
        let hd = dec_digits(n / 10);
        let s = dec_digits(n);
        assert(s == hd + seq![(48 + n % 10) as u8]);
        assert(s.drop_last() =~= hd);
        assert(s.last() == (48 + n % 10) as u8);
        lemma_fundamental_div_mod(n as int, 10);
        assert(val_digits(s) == val_digits(hd) * 10 + n % 10);
        assert(s[0] == hd[0]);
        assert(n / 10 >= 1);
    }
}

/// The value of a digit string grows with its length.
pub proof fn lemma_val_digits_prefix(s: Seq<u8>, k: int)
    requires
        forall|i: int| 0 <= i < s.len() ==> is_digit(s[i]),
        0 <= k <= s.len(),
    ensures
        val_digits(s.subrange(0, k)) <= val_digits(s),
    decreases s.len(),
{
    if k == s.len() {
        assert(s.subrange(0, k) =~= s);
    } else {
        let t = s.drop_last();
        assert(forall|i: int| 0 <= i < t.len() ==> is_digit(#[trigger] t[i]));
        assert(s.subrange(0, k) =~= t.subrange(0, k));
        lemma_val_digits_prefix(t, k);
        lemma_val_digits_nonneg(t);
        assert(val_digits(s) == val_digits(t) * 10 + (s.last() - 48));
        assert(val_digits(t) * 10 >= val_digits(t));
    }
}

pub open spec fn spec_parse_digits(s: Seq<u8>, limit: u64) -> Option<u64> {
    if all_digits(s) && val_digits(s) <= limit {
        Some(val_digits(s) as u64)
    } else {
        None
    }
}

/// Renders `n` in decimal.
pub fn digits_u64(n: u64) -> (r: Vec<u8>)
    ensures
        r@ == dec_digits(n as nat),
    decreases n,
{
    if n < 10 {
        let mut v: Vec<u8> = Vec::new();
        v.push(48 + n as u8);
        proof {
            assert(v@ =~= dec_digits(n as nat));
        }
        v
    } else {
        let mut v = digits_u64(n / 10);
        v.push(48 + (n % 10) as u8);
        proof {
            assert(v@ =~= dec_digits((n / 10) as nat) + seq![(48 + n % 10) as u8]);
        }
        v
    }
}

/// Parses an unsigned digit string, refusing values above `limit`.
pub fn parse_digits(s: &[u8], limit: u64) -> (r: Option<u64>)
    requires
        limit <= 1844674407370955160,
    ensures
        r == spec_parse_digits(s@, limit),
{
    if s.len() == 0 {
        return None;
    }
    let mut i: usize = 0;
    while i < s.len()
        invariant
            0 <= i <= s@.len(),
            forall|j: int| 0 <= j < i ==> is_digit(s@[j]),
        decreases s@.len() - i,
    {
        let b = *slice_index_get(s, i);
        if b < 48 || b > 57 {
            proof {
                assert(!all_digits(s@));
            }
            return None;
        }
        i = i + 1;
    }
    let mut acc: u64 = 0;
    let mut i: usize = 0;
    proof {
        assert(val_digits(s@.subrange(0, 0)) == 0);
    }
    while i < s.len()
        invariant
            0 <= i <= s@.len(),
            limit <= 1844674407370955160,
            forall|j: int| 0 <= j < s@.len() ==> is_digit(s@[j]),
            acc == val_digits(s@.subrange(0, i as int)),
            acc <= limit,
        decreases s@.len() - i,
    {
        let b = *slice_index_get(s, i);
        let d = (b - 48) as u64;
        let next = acc * 10 + d;
        proof {
            let p = s@.subrange(0, i as int);
            let q = s@.subrange(0, i + 1);
            assert(q.drop_last() =~= p);
            assert(q.last() == s@[i as int]);
            assert(next == val_digits(q));
        }
        if next > limit {
            proof {
                lemma_val_digits_prefix(s@, i + 1);
                assert(val_digits(s@) > limit);
            }
            return None;
        }
        acc = next;
        i = i + 1;
    }
    proof {
        assert(s@.subrange(0, s@.len() as int) =~= s@);
    }
    Some(acc)
}

/// The decimal text of a signed integer.
pub open spec fn int_digits(n: int) -> Seq<u8> {
    if n < 0 {
        seq![MINUS] + dec_digits((-n) as nat)
    } else {
        dec_digits(n as nat)
    }
}

pub open spec fn spec_parse_int(s: Seq<u8>, limit: u64) -> Option<int> {
    if s.len() >= 1 && s[0] == MINUS {
        match spec_parse_digits(s.subrange(1, s.len() as int), limit) {
            Some(v) => Some(-(v as int)),
            None => None,
        }
    } else {
        match spec_parse_digits(s, limit) {
            Some(v) => Some(v as int),
            None => None,
        }
    }
}

/// Renders a signed integer in decimal.
pub fn digits_i64(n: i64) -> (r: Vec<u8>)
    requires
        n > i64::MIN,
    ensures
        r@ == int_digits(n as int),
{
    if n < 0 {
        let mut v: Vec<u8> = Vec::new();
        v.push(MINUS);
        let ds = digits_u64((-n) as u64);
        crate::text::append_bytes(&mut v, ds.as_slice());
        proof {
            assert(v@ =~= int_digits(n as int));
        }
        v
    } else {
        digits_u64(n as u64)
    }
}

/// Parses an optionally negated digit string, refusing magnitudes above
/// `limit`.
pub fn parse_int(s: &[u8], limit: u64) -> (r: Option<i64>)
    requires
        limit <= 1000000000000000000,
    ensures
        match r {
            Some(x) => spec_parse_int(s@, limit) == Some(x as int),
            None => spec_parse_int(s@, limit) is None,
        },
{
    if s.len() >= 1 && *slice_index_get(s, 0) == MINUS {
        let tail = vstd::slice::slice_subrange(s, 1, s.len());
        proof {
            assert(tail@ =~= s@.subrange(1, s@.len() as int));
        }
        match parse_digits(tail, limit) {
            Some(v) => {
                proof {
                    assert(all_digits(tail@) && val_digits(tail@) <= limit);
                    lemma_val_digits_nonneg(tail@);
                }
                Some(-(v as i64))
            },
            None => None,
        }
    } else {
        match parse_digits(s, limit) {
            Some(v) => {
                proof {
                    assert(all_digits(s@) && val_digits(s@) <= limit);
                    lemma_val_digits_nonneg(s@);
                }
                Some(v as i64)
            },
            None => None,
        }
    }
}

/// A parsed signed integer lies within the magnitude limit.
pub proof fn lemma_spec_parse_int_bound(s: Seq<u8>, limit: u64)
    ensures
        spec_parse_int(s, limit) is Some ==> -(limit as int) <= spec_parse_int(s, limit).unwrap()
            <= limit as int,
{
    if s.len() >= 1 && s[0] == MINUS {
        let t = s.subrange(1, s.len() as int);
        if spec_parse_digits(t, limit) is Some {
            lemma_val_digits_nonneg(t);
        }
    } else {
        if spec_parse_digits(s, limit) is Some {
            lemma_val_digits_nonneg(s);
        }
    }
}

/// A parsed time token lies within the magnitude limit.
pub proof fn lemma_spec_parse_time_bound(s: Seq<u8>, limit: u64)
    ensures
        spec_parse_time(s, limit) is Some ==> -(limit as int) <= spec_parse_time(s, limit).unwrap()
            <= limit as int,
{
    let k = find_first(s, DOT);
    if 0 <= k < s.len() {
        lemma_spec_parse_int_bound(s.subrange(0, k), limit);
    } else {
        lemma_spec_parse_int_bound(s, limit);
    }
}

/// A number token as the timing-point reader takes it: an optionally negated
/// digit string with an optional fractional part, truncated toward zero.
pub open spec fn spec_parse_time(s: Seq<u8>, limit: u64) -> Option<int> {
    let k = find_first(s, DOT);
    if 0 <= k < s.len() {
        let ip = s.subrange(0, k);
        let fp = s.subrange(k + 1, s.len() as int);
        if all_digits(fp) {
            spec_parse_int(ip, limit)
        } else {
            None
        }
    } else {
        spec_parse_int(s, limit)
    }
}

/// Parses a time token, truncating any fractional part toward zero.
pub fn parse_time(s: &[u8], limit: u64) -> (r: Option<i64>)
    requires
        limit <= 1000000000000000000,
    ensures
        match r {
            Some(x) => spec_parse_time(s@, limit) == Some(x as int),
            None => spec_parse_time(s@, limit) is None,
        },
{
    let k = crate::text::find_byte(s, 0, DOT);
    proof {
        assert(s@.subrange(0, s@.len() as int) =~= s@);
        assert(find_first(s@, DOT) == k - 0);
    }
    if k == s.len() {
        parse_int(s, limit)
    } else {
        let ip = vstd::slice::slice_subrange(s, 0, k);
        let fp = vstd::slice::slice_subrange(s, k + 1, s.len());
        let ghost fpv = s@.subrange(k + 1, s@.len() as int);
        if fp.len() == 0 {
            proof {
                assert(!all_digits(fpv));
            }
            return None;
        }
        let mut i: usize = 0;
        while i < fp.len()
            invariant
                0 <= i <= fp@.len(),
                0 <= k < s@.len(),
                find_first(s@, DOT) == k,
                fpv == s@.subrange(k as int + 1, s@.len() as int),
                fp@ == fpv,
                forall|j: int| 0 <= j < i ==> is_digit(fp@[j]),
            decreases fp@.len() - i,
        {
            let b = *slice_index_get(fp, i);
            if b < 48 || b > 57 {
                proof {
                    assert(!is_digit(fpv[i as int]));
                    assert(!all_digits(fpv));
                }
                return None;
            }
            i = i + 1;
        }
        proof {
            assert(all_digits(fpv));
        }
        parse_int(ip, limit)
    }
}

/// Bound on the integer part of a parsed decimal field.
pub const DEC_INT_MAX: u64 = 10000000;

/// Bound on the mantissa of a parsed decimal field.
pub const DEC_MANT_MAX: u64 = 20000000000000;

/// Fractional digits kept when parsing a decimal field.
pub const DEC_SCALE_MAX: u32 = 6;

/// Bound on time fields, in milliseconds.
pub const TIME_MAX: u64 = 10000000000;

/// Bound on the mantissa of a rate factor.
pub const RATE_MANT_MAX: u64 = 1000000;

/// Fractional digits allowed in a rate factor.
pub const RATE_SCALE_MAX: u32 = 3;

/// A fixed-point decimal: `mant / 10^scale`, negated when `neg` holds.
#[derive(Clone, Copy, PartialEq, Eq, Structural, Debug)]
pub struct Decimal {
    pub neg: bool,
    pub mant: u64,
    pub scale: u32,
}

/// A playback-rate factor: the positive decimal `mant / 10^scale`.
#[derive(Clone, Copy, PartialEq, Eq, Structural, Debug)]
pub struct Rate {
    pub mant: u64,
    pub scale: u32,
}

impl Decimal {
    /// The signed numerator of the decimal over `10^scale`.
    pub open spec fn num(self) -> int {
        if self.neg {
            -(self.mant as int)
        } else {
            self.mant as int
        }
    }

    /// No trailing fractional zeros, and zero only in one form.
    pub open spec fn canonical(self) -> bool {
        &&& self.scale > 0 ==> self.mant % 10 != 0
        &&& self.mant == 0 ==> !self.neg && self.scale == 0
    }

    /// Shape of a decimal that came from parsing a beatmap field.
    pub open spec fn wf(self) -> bool {
        &&& self.canonical()
        &&& self.mant <= DEC_MANT_MAX
        &&& self.scale <= DEC_SCALE_MAX
        &&& (self.mant as nat) < (DEC_INT_MAX + 1) * pow10(self.scale as nat)
    }

    /// Shape of a decimal after one rate division.
    pub open spec fn wf_loose(self) -> bool {
        &&& self.canonical()
        &&& self.mant <= 2000000000000000000
        &&& self.scale <= 9
    }
}

impl Rate {
    /// A usable rate: canonical, at least 0.01, at most one million, with at
    /// most three fractional digits.
    pub open spec fn wf(self) -> bool {
        &&& 1 <= self.mant <= RATE_MANT_MAX
        &&& self.scale <= RATE_SCALE_MAX
        &&& self.scale > 0 ==> self.mant % 10 != 0
        &&& self.mant * 100 >= pow10(self.scale as nat)
    }

    /// The decimal with this rate's value.
    pub open spec fn as_decimal(self) -> Decimal {
        Decimal { neg: false, mant: self.mant, scale: self.scale }
    }
}

/// Removes trailing fractional zeros and normalizes zero.
pub open spec fn canon_dec(neg: bool, mant: nat, scale: nat) -> Decimal
    decreases scale,
{
    if mant == 0 {
        Decimal { neg: false, mant: 0, scale: 0 }
    } else if scale > 0 && mant % 10 == 0 {
        canon_dec(neg, mant / 10, (scale - 1) as nat)
    } else {
        Decimal { neg, mant: mant as u64, scale: scale as u32 }
    }
}

pub proof fn lemma_canon_dec(neg: bool, mant: nat, scale: nat)
    requires
        mant <= u64::MAX,
        scale <= u32::MAX,
    ensures
        ({
            let c = canon_dec(neg, mant, scale);
            &&& c.canonical()
            &&& c.mant <= mant
            &&& c.scale <= scale
            &&& c.mant as nat * pow10((scale - c.scale as int) as nat) == mant
            &&& (mant > 0 ==> c.neg == neg && c.mant > 0)
        }),
    decreases scale,
{
    if mant == 0 {
        lemma_pow10_pos(scale);
        assert(pow10((scale - 0) as nat) >= 1);
    } else if scale > 0 && mant % 10 == 0 {
        lemma_canon_dec(neg, mant / 10, (scale - 1) as nat);
        let c = canon_dec(neg, mant, scale);
        lemma_fundamental_div_mod(mant as int, 10);
        assert(mant == 10 * (mant / 10));
        let k = ((scale - 1) - c.scale as int) as nat;
        assert(c.mant as nat * pow10(k) == mant / 10);
        assert(pow10(k + 1) == 10 * pow10(k));
        assert(c.mant as nat * pow10(k + 1) == c.mant as nat * (10 * pow10(k)));
        assert(c.mant as nat * (10 * pow10(k)) == 10 * (c.mant as nat * pow10(k)))
            by (nonlinear_arith);
    } else {
        let c = canon_dec(neg, mant, scale);
        assert(pow10((scale - c.scale as int) as nat) == 1);
    }
}

/// Canonicalizes a decimal in place of `canon_dec`.
pub fn canon_exec(neg: bool, mant: u64, scale: u32) -> (d: Decimal)
    ensures
        d == canon_dec(neg, mant as nat, scale as nat),
{
    let mut m: u64 = mant;
    let mut sc: u32 = scale;
    while m != 0 && sc > 0 && m % 10 == 0
        invariant
            canon_dec(neg, mant as nat, scale as nat) == canon_dec(neg, m as nat, sc as nat),
        decreases sc,
    {
        m = m / 10;
        sc = sc - 1;
    }
    if m == 0 {
        Decimal { neg: false, mant: 0, scale: 0 }
    } else {
        Decimal { neg, mant: m, scale: sc }
    }
}

/// Exactly `k` digits giving the fractional value `fp`.
pub open spec fn frac_digits(fp: nat, k: nat) -> Seq<u8>
    decreases k,
{
    if k == 0 {
        Seq::empty()
    } else {
        frac_digits(fp / 10, (k - 1) as nat) + seq![(48 + fp % 10) as u8]
    }
}

pub proof fn lemma_frac_digits(fp: nat, k: nat)
    requires
        fp < pow10(k),
    ensures
        frac_digits(fp, k).len() == k,
        forall|i: int| 0 <= i < k ==> is_digit(#[trigger] frac_digits(fp, k)[i]),
        val_digits(frac_digits(fp, k)) == fp,
    decreases k,
{
    if k == 0 {
    } else {
        lemma_fundamental_div_mod(fp as int, 10);
        assert(fp / 10 < pow10((k - 1) as nat)) by {
            assert(pow10(k) == 10 * pow10((k - 1) as nat));
            if fp / 10 >= pow10((k - 1) as nat) {
                assert(fp == 10 * (fp / 10) + fp % 10);
                assert(10 * (fp / 10) >= 10 * pow10((k - 1) as nat)) by (nonlinear_arith)
                    requires
                        fp / 10 >= pow10((k - 1) as nat),
                ;
            }
        }
        lemma_frac_digits(fp / 10, (k - 1) as nat);
        let s = frac_digits(fp, k);
        let h = frac_digits(fp / 10, (k - 1) as nat);
        assert(s.drop_last() =~= h);
        assert(s.last() == (48 + fp % 10) as u8);
        assert(val_digits(s) == val_digits(h) * 10 + (fp % 10));
        assert forall|i: int| 0 <= i < k implies is_digit(#[trigger] s[i]) by {
            if i < k - 1 {
                assert(s[i] == h[i]);
            }
        }
    }
}

/// The unsigned text of `mant / 10^scale`: integer digits and — when the
/// scale is positive — a dot and exactly `scale` fractional digits.
pub open spec fn decimal_body(mant: nat, scale: nat) -> Seq<u8> {
    let ip = mant / pow10(scale);
    let fp = mant % pow10(scale);
    if scale == 0 {
        dec_digits(ip)
    } else {
        dec_digits(ip) + seq![DOT] + frac_digits(fp, scale)
    }
}

/// The text of a fixed-point decimal: sign, then its unsigned body.
pub open spec fn decimal_text(d: Decimal) -> Seq<u8> {
    if d.neg {
        seq![MINUS] + decimal_body(d.mant as nat, d.scale as nat)
    } else {
        decimal_body(d.mant as nat, d.scale as nat)
    }
}

/// Exact fractional digits helper for rendering.
fn frac_digits_exec(fp: u64, k: u32) -> (r: Vec<u8>)
    requires
        k <= 19,
        fp < pow10(k as nat),
    ensures
        r@ == frac_digits(fp as nat, k as nat),
    decreases k,
{
    if k == 0 {
        Vec::new()
    } else {
        proof {
            lemma_fundamental_div_mod(fp as int, 10);
            assert(pow10(k as nat) == 10 * pow10((k - 1) as nat));
            if fp / 10 >= pow10((k - 1) as nat) {
                assert(10 * (fp as int / 10) >= 10 * pow10((k - 1) as nat)) by (nonlinear_arith)
                    requires
                        fp as int / 10 >= pow10((k - 1) as nat),
                ;
            }
        }
        let mut v = frac_digits_exec(fp / 10, k - 1);
        v.push(48 + (fp % 10) as u8);
        proof {
            assert(v@ =~= frac_digits(fp as nat, k as nat));
        }
        v
    }
}

/// Renders a fixed-point decimal.
pub fn render_decimal(d: &Decimal) -> (r: Vec<u8>)
    requires
        d.mant <= 2000000000000000000,
        d.scale <= 9,
    ensures
        r@ == decimal_text(*d),
{
    let p = pow10_u64(d.scale);
    proof {
        lemma_pow10_pos(d.scale as nat);
    }
    let ip = d.mant / p;
    let fp = d.mant % p;
    let mut v: Vec<u8> = Vec::new();
    if d.neg {
        v.push(MINUS);
    }
    let ds = digits_u64(ip);
    crate::text::append_bytes(&mut v, ds.as_slice());
    if d.scale > 0 {
        v.push(DOT);
        let fs = frac_digits_exec(fp, d.scale);
        crate::text::append_bytes(&mut v, fs.as_slice());
    }
    proof {
        assert(v@ =~= decimal_text(*d));
    }
    v
}

/// Mantissa and scale read from an unsigned decimal body, before
/// canonicalization; fractional digits beyond `DEC_SCALE_MAX` are dropped.
pub open spec fn spec_parse_dec_body(s: Seq<u8>) -> Option<(nat, nat)> {
    let k = find_first(s, DOT);
    if 0 <= k < s.len() {
        let ip = s.subrange(0, k);
        let fp = s.subrange(k + 1, s.len() as int);
        if all_digits(ip) && all_digits(fp) && val_digits(ip) <= DEC_INT_MAX {
            let kf: nat = if fp.len() <= DEC_SCALE_MAX {
                fp.len()
            } else {
                DEC_SCALE_MAX as nat
            };
            Some(
                (
                    (val_digits(ip) * pow10(kf) + val_digits(fp.subrange(0, kf as int))) as nat,
                    kf,
                ),
            )
        } else {
            None
        }
    } else {
        if all_digits(s) && val_digits(s) <= DEC_INT_MAX {
            Some((val_digits(s) as nat, 0))
        } else {
            None
        }
    }
}

/// A decimal field as the timing-point reader takes it, canonicalized.
pub open spec fn spec_parse_decimal(s: Seq<u8>) -> Option<Decimal> {
    if s.len() >= 1 && s[0] == MINUS {
        match spec_parse_dec_body(s.subrange(1, s.len() as int)) {
            Some((m, sc)) => Some(canon_dec(true, m, sc)),
            None => None,
        }
    } else {
        match spec_parse_dec_body(s) {
            Some((m, sc)) => Some(canon_dec(false, m, sc)),
            None => None,
        }
    }
}

/// A digit string's value is below `10^length`.
pub proof fn lemma_val_digits_bound(s: Seq<u8>)
    requires
        forall|i: int| 0 <= i < s.len() ==> is_digit(s[i]),
    ensures
        val_digits(s) < pow10(s.len()),
    decreases s.len(),
{
    if s.len() == 0 {
    } else {
        let t = s.drop_last();
        assert(forall|i: int| 0 <= i < t.len() ==> is_digit(#[trigger] t[i]));
        lemma_val_digits_bound(t);
        lemma_val_digits_nonneg(t);
        assert(pow10(s.len()) == 10 * pow10(t.len()));
        assert(val_digits(s) == val_digits(t) * 10 + (s.last() - 48));
        assert(val_digits(t) * 10 + 9 < 10 * pow10(t.len())) by (nonlinear_arith)
            requires
                val_digits(t) < pow10(t.len()),
                val_digits(t) >= 0,
        ;
    }
}

/// Reads the mantissa and scale of an unsigned decimal body.
fn parse_dec_body(s: &[u8]) -> (r: Option<(u64, u32)>)
    ensures
        match r {
            Some((m, sc)) => spec_parse_dec_body(s@) == Some(((m as nat), (sc as nat))) && m
                < (DEC_INT_MAX + 1) * pow10(sc as nat) && sc <= DEC_SCALE_MAX,
            None => spec_parse_dec_body(s@) is None,
        },
{
    let k = crate::text::find_byte(s, 0, DOT);
    proof {
        assert(s@.subrange(0, s@.len() as int) =~= s@);
        assert(find_first(s@, DOT) == k - 0);
    }
    if k == s.len() {
        match parse_digits(s, DEC_INT_MAX) {
            Some(v) => {
                proof {
                    lemma_val_digits_nonneg(s@);
                    assert((DEC_INT_MAX + 1) * pow10(0) == DEC_INT_MAX + 1) by (nonlinear_arith);
                }
                Some((v, 0))
            },
            None => None,
        }
    } else {
        let ip = vstd::slice::slice_subrange(s, 0, k);
        let fp = vstd::slice::slice_subrange(s, k + 1, s.len());
        let ghost ipv = s@.subrange(0, k as int);
        let ghost fpv = s@.subrange(k as int + 1, s@.len() as int);
        let vi = match parse_digits(ip, DEC_INT_MAX) {
            Some(v) => {
                proof {
                    lemma_val_digits_nonneg(ipv);
                }
                v
            },
            None => {
                return None;
            },
        };
        if fp.len() == 0 {
            proof {
                assert(!all_digits(fpv));
            }
            return None;
        }
        let mut i: usize = 0;
        while i < fp.len()
            invariant
                0 <= i <= fp@.len(),
                0 <= k < s@.len(),
                find_first(s@, DOT) == k,
                fpv == s@.subrange(k as int + 1, s@.len() as int),
                fp@ == fpv,
                forall|j: int| 0 <= j < i ==> is_digit(fp@[j]),
            decreases fp@.len() - i,
        {
            let b = *slice_index_get(fp, i);
            if b < 48 || b > 57 {
                proof {
                    assert(!is_digit(fpv[i as int]));
                    assert(!all_digits(fpv));
                }
                return None;
            }
            i = i + 1;
        }
        proof {
            assert(all_digits(fpv));
        }
        let kf: u32 = if fp.len() <= 6 {
            fp.len() as u32
        } else {
            6
        };
        let fpk = vstd::slice::slice_subrange(fp, 0, kf as usize);
        proof {
            assert(fpk@ =~= fpv.subrange(0, kf as int));
            assert(forall|i: int| 0 <= i < fpk@.len() ==> is_digit(#[trigger] fpk@[i]));
            lemma_val_digits_bound(fpk@);
            lemma_pow10_mono(kf as nat, 6);
            reveal_with_fuel(pow10, 8);
        }
        let fv = match parse_digits(fpk, 999999) {
            Some(v) => {
                proof {
                    lemma_val_digits_nonneg(fpk@);
                    assert(v == val_digits(fpk@));
                }
                v
            },
            None => {
                proof {
                    assert(all_digits(fpk@));
                    assert(val_digits(fpk@) < pow10(kf as nat));
                    assert(false);
                }
                return None;
            },
        };
        let p = pow10_u64(kf);
        proof {
            assert(vi * p + fv < (DEC_INT_MAX + 1) * pow10(kf as nat)) by (nonlinear_arith)
                requires
                    vi <= DEC_INT_MAX,
                    fv < p,
                    p == pow10(kf as nat),
                    vi >= 0,
                    fv >= 0,
                    p >= 1,
            ;
            assert((DEC_INT_MAX + 1) * pow10(kf as nat) <= (DEC_INT_MAX + 1) * pow10(6))
                by (nonlinear_arith)
                requires
                    pow10(kf as nat) <= pow10(6),
            ;
        }
        let m = vi * p + fv;
        Some((m, kf))
    }
}

/// Parses a decimal field, canonicalizing the result.
pub fn parse_decimal(s: &[u8]) -> (r: Option<Decimal>)
    ensures
        r == spec_parse_decimal(s@),
        r is Some ==> r.unwrap().wf(),
{
    let (neg, body) = if s.len() >= 1 && *slice_index_get(s, 0) == MINUS {
        (true, vstd::slice::slice_subrange(s, 1, s.len()))
    } else {
        (false, vstd::slice::slice_subrange(s, 0, s.len()))
    };
    proof {
        if s@.len() >= 1 && s@[0] == MINUS {
            assert(body@ =~= s@.subrange(1, s@.len() as int));
        } else {
            assert(body@ =~= s@);
        }
    }
    match parse_dec_body(body) {
        Some((m, sc)) => {
            let d = canon_exec(neg, m, sc);
            proof {
                lemma_canon_dec(neg, m as nat, sc as nat);
                let c = canon_dec(neg, m as nat, sc as nat);
                lemma_pow10_add((sc - c.scale) as nat, c.scale as nat);
                assert(c.mant as nat * pow10((sc - c.scale as int) as nat) == m);
                assert((c.mant as nat) < (DEC_INT_MAX + 1) * pow10(c.scale as nat)) by {
                    let dd = pow10((sc - c.scale as int) as nat);
                    lemma_pow10_pos((sc - c.scale as int) as nat);
                    if (c.mant as nat) >= (DEC_INT_MAX + 1) * pow10(c.scale as nat) {
                        assert(c.mant as nat * dd >= ((DEC_INT_MAX + 1) * pow10(
                            c.scale as nat,
                        )) * dd) by (nonlinear_arith)
                            requires
                                (c.mant as nat) >= (DEC_INT_MAX + 1) * pow10(c.scale as nat),
                                dd >= 1,
                        ;
                        assert(((DEC_INT_MAX + 1) * pow10(c.scale as nat)) * dd == (DEC_INT_MAX
                            + 1) * (pow10(c.scale as nat) * dd)) by (nonlinear_arith);
                        assert(pow10(c.scale as nat) * dd == pow10(sc as nat)) by {
                            lemma_pow10_add(c.scale as nat, (sc - c.scale as int) as nat);
                        }
                        assert(m >= (DEC_INT_MAX + 1) * pow10(sc as nat));
                        lemma_pow10_mono(c.scale as nat, sc as nat);
                        assert((DEC_INT_MAX + 1) * pow10(sc as nat) >= (DEC_INT_MAX + 1) * pow10(
                            c.scale as nat,
                        )) by (nonlinear_arith)
                            requires
                                pow10(sc as nat) >= pow10(c.scale as nat),
                        ;
                    }
                }
                lemma_pow10_mono(c.scale as nat, 6);
                assert((DEC_INT_MAX + 1) * pow10(c.scale as nat) <= (DEC_INT_MAX + 1) * pow10(6))
                    by (nonlinear_arith)
                    requires
                        pow10(c.scale as nat) <= pow10(6),
                ;
                reveal_with_fuel(pow10, 8);
                assert(c.wf());
            }
            Some(d)
        },
        None => None,
    }
}

/// Classification of the bytes of a rendered signed integer.
pub proof fn lemma_int_digits_bytes(n: int)
    ensures
        int_digits(n).len() >= 1,
        forall|i: int|
            0 <= i < int_digits(n).len() ==> is_digit(#[trigger] int_digits(n)[i]) || int_digits(
                n,
            )[i] == MINUS,
        (int_digits(n)[0] == MINUS) == (n < 0),
        is_digit(int_digits(n).last()),
        n >= 0 ==> all_digits(int_digits(n)),
{
    if n < 0 {
        lemma_dec_digits((-n) as nat);
        let d = dec_digits((-n) as nat);
        let s = int_digits(n);
        assert(s == seq![MINUS] + d);
        assert(s[0] == MINUS);
        assert forall|i: int|
            0 <= i < s.len() implies is_digit(#[trigger] s[i]) || s[i] == MINUS by {
            if i >= 1 {
                assert(s[i] == d[i - 1]);
            }
        }
        assert(s.last() == d.last());
    } else {
        lemma_dec_digits(n as nat);
        assert(is_digit(int_digits(n)[0]));
    }
}

/// Parsing a rendered signed integer gives the integer back.
pub proof fn lemma_int_roundtrip(n: int, limit: u64)
    requires
        -(limit as int) <= n <= limit as int,
    ensures
        spec_parse_int(int_digits(n), limit) == Some(n),
{
    if n < 0 {
        lemma_dec_digits((-n) as nat);
        let d = dec_digits((-n) as nat);
        let s = int_digits(n);
        assert(s[0] == MINUS);
        assert(s.subrange(1, s.len() as int) =~= d);
        assert(spec_parse_digits(d, limit) == Some(((-n) as nat) as u64));
    } else {
        lemma_dec_digits(n as nat);
        let s = int_digits(n);
        assert(is_digit(s[0]));
        assert(s[0] != MINUS);
        assert(spec_parse_digits(s, limit) == Some((n as nat) as u64));
    }
}

/// Parsing a rendered signed integer as a time token gives the integer back.
pub proof fn lemma_time_roundtrip(n: int, limit: u64)
    requires
        -(limit as int) <= n <= limit as int,
    ensures
        spec_parse_time(int_digits(n), limit) == Some(n),
{
    lemma_int_digits_bytes(n);
    let s = int_digits(n);
    assert forall|i: int| 0 <= i < s.len() implies s[i] != DOT by {
        assert(is_digit(s[i]) || s[i] == MINUS);
    }
    crate::text::lemma_find_first_is(s, DOT, s.len() as int);
    lemma_int_roundtrip(n, limit);
}

/// The rate division: three extra fractional digits of precision, truncated,
/// then canonicalized.
pub open spec fn spec_div_dec(b: Decimal, r: Rate) -> Decimal {
    canon_dec(
        b.neg,
        (b.mant as nat * pow10((r.scale + 3) as nat)) / (r.mant as nat),
        (b.scale + 3) as nat,
    )
}

/// Divides a parsed decimal by a rate.
pub fn div_decimal(b: &Decimal, r: &Rate) -> (d: Decimal)
    requires
        b.wf(),
        r.wf(),
    ensures
        d == spec_div_dec(*b, *r),
        d.wf_loose(),
{
    let p = pow10_u64(r.scale + 3);
    proof {
        assert((b.mant as int) * (p as int) < 0x100000000000000000000000000000000)
            by (nonlinear_arith)
            requires
                b.mant <= 0xffffffffffffffff,
                p <= 0xffffffffffffffff,
        ;
    }
    let prod: u128 = (b.mant as u128) * (p as u128);
    let q128: u128 = prod / (r.mant as u128);
    proof {
        let bm = b.mant as int;
        let rm = r.mant as int;
        let ps = pow10(r.scale as nat) as int;
        lemma_pow10_add(3, r.scale as nat);
        reveal_with_fuel(pow10, 5);
        assert(p == 1000 * ps);
        lemma_pow10_pos(r.scale as nat);
        assert(bm * (1000 * ps) <= bm * (1000 * (rm * 100))) by (nonlinear_arith)
            requires
                ps <= rm * 100,
                bm >= 0,
        ;
        assert(bm * (1000 * (rm * 100)) == (bm * 100000) * rm) by (nonlinear_arith);
        vstd::arithmetic::div_mod::lemma_div_is_ordered(bm * (p as int), (bm * 100000) * rm, rm);
        vstd::arithmetic::div_mod::lemma_div_multiples_vanish(bm * 100000, rm);
        assert(rm * (bm * 100000) == (bm * 100000) * rm) by (nonlinear_arith);
        assert(q128 <= b.mant as int * 100000);
        assert(b.mant as int * 100000 <= 2000000000000000000) by (nonlinear_arith)
            requires
                b.mant <= DEC_MANT_MAX,
        ;
    }
    let q = q128 as u64;
    let d = canon_exec(b.neg, q, b.scale + 3);
    proof {
        lemma_canon_dec(b.neg, q as nat, (b.scale + 3) as nat);
    }
    d
}

/// The fixed delay added to every rescaled time, compensating the audio
/// pipeline's measured encoder/decoder latency.
pub const OFFSET_MS: i64 = 75;

/// A rescaled time: the original divided by the rate, floored, plus the fixed
/// offset.
pub open spec fn spec_new_time(t: int, r: Rate) -> int {
    t * pow10(r.scale as nat) / (r.mant as int) + OFFSET_MS
}

/// Rescales one millisecond time by a rate.
pub fn scale_time(t: i64, r: &Rate) -> (nt: i64)
    requires
        r.wf(),
        -(TIME_MAX as int) <= t <= TIME_MAX as int,
    ensures
        nt == spec_new_time(t as int, *r),
        -100000000000000 <= nt <= 100000000000000,
{
    let p = pow10_u64(r.scale);
    proof {
        lemma_pow10_mono(r.scale as nat, 3);
        reveal_with_fuel(pow10, 5);
        assert(-10000000000000 <= t * p <= 10000000000000) by (nonlinear_arith)
            requires
                -(TIME_MAX as int) <= t <= TIME_MAX as int,
                0 < p <= 1000,
        ;
    }
    let num: i64 = t * (p as i64);
    let rm: u64 = r.mant;
    let q: i64 = if num >= 0 {
        let qq = (num as u64) / rm;
        proof {
            vstd::arithmetic::div_mod::lemma_div_nonincreasing(num as int, rm as int);
            vstd::arithmetic::div_mod::lemma_div_pos_is_pos(num as int, rm as int);
        }
        qq as i64
    } else {
        let m = (-num) as u64;
        let qq = m / rm;
        let rem = m % rm;
        proof {
            lemma_fundamental_div_mod(m as int, rm as int);
            vstd::arithmetic::div_mod::lemma_div_nonincreasing(m as int, rm as int);
            vstd::arithmetic::div_mod::lemma_div_pos_is_pos(m as int, rm as int);
            if rem == 0 {
                assert(num as int == (-(qq as int)) * (rm as int) + 0) by (nonlinear_arith)
                    requires
                        m == qq * rm + 0,
                        num == -(m as int),
                ;
                lemma_fundamental_div_mod_converse(num as int, rm as int, -(qq as int), 0);
            } else {
                assert(num as int == (-(qq as int) - 1) * (rm as int) + (rm - rem))
                    by (nonlinear_arith)
                    requires
                        m == qq * rm + rem,
                        num == -(m as int),
                ;
                lemma_fundamental_div_mod_converse(
                    num as int,
                    rm as int,
                    -(qq as int) - 1,
                    rm - rem,
                );
            }
        }
        if rem == 0 {
            -(qq as i64)
        } else {
            -(qq as i64) - 1
        }
    };
    q + OFFSET_MS
}

/// The exact sense in which the divided decimal is the original scaled by the
/// inverse rate: the result, read at `scale + 3` fractional digits, is the
/// greatest such decimal not above the true quotient.
pub proof fn lemma_spec_div_dec_value(b: Decimal, r: Rate)
    requires
        b.wf(),
        r.wf(),
    ensures
        ({
            let q = (b.mant as nat * pow10((r.scale + 3) as nat)) / (r.mant as nat);
            let d = spec_div_dec(b, r);
            &&& q * r.mant <= b.mant as nat * pow10((r.scale + 3) as nat) < (q + 1) * (
            r.mant as nat)
            &&& d.mant as nat * pow10((b.scale + 3 - d.scale as int) as nat) == q
            &&& d.neg == (b.neg && q != 0)
        }),
{
    let x = b.mant as nat * pow10((r.scale + 3) as nat);
    let q = x / (r.mant as nat);
    lemma_fundamental_div_mod(x as int, r.mant as int);
    assert(x == (r.mant as int) * (q as int) + (x as int) % (r.mant as int));
    assert((r.mant as int) * (q as int) == q * r.mant) by (nonlinear_arith);
    assert((q + 1) * (r.mant as nat) == q * r.mant + r.mant) by (nonlinear_arith);
    assert(q as int <= u64::MAX) by {
        let bm = b.mant as int;
        let rm = r.mant as int;
        let ps = pow10(r.scale as nat) as int;
        lemma_pow10_add(3, r.scale as nat);
        reveal_with_fuel(pow10, 5);
        lemma_pow10_pos(r.scale as nat);
        assert(bm * (1000 * ps) <= bm * (1000 * (rm * 100))) by (nonlinear_arith)
            requires
                ps <= rm * 100,
                bm >= 0,
        ;
        assert(bm * (1000 * (rm * 100)) == (bm * 100000) * rm) by (nonlinear_arith);
        vstd::arithmetic::div_mod::lemma_div_is_ordered(
            bm * pow10((r.scale + 3) as nat),
            (bm * 100000) * rm,
            rm,
        );
        vstd::arithmetic::div_mod::lemma_div_multiples_vanish(bm * 100000, rm);
        assert(rm * (bm * 100000) == (bm * 100000) * rm) by (nonlinear_arith);
        assert(bm <= 20000000000000);
        assert(bm * 100000 <= 2000000000000000000) by (nonlinear_arith)
            requires
                bm <= 20000000000000,
        ;
    }
    lemma_canon_dec(b.neg, q, (b.scale + 3) as nat);
}

/// The text form a rate factor is accepted from: a positive decimal between
/// 0.01 and one million with at most three fractional digits.
pub open spec fn spec_rate_from_text(s: Seq<u8>) -> Option<Rate> {
    match spec_parse_decimal(s) {
        Some(d) => {
            if !d.neg && 1 <= d.mant <= RATE_MANT_MAX && d.scale <= RATE_SCALE_MAX && d.mant * 100
                >= pow10(d.scale as nat) {
                Some(Rate { mant: d.mant, scale: d.scale })
            } else {
                None
            }
        },
        None => None,
    }
}

/// An unsigned decimal body reads back as the mantissa and scale it was
/// rendered from, and its bytes are digits and at most one dot.
pub proof fn lemma_decimal_body_parse(mant: nat, scale: nat)
    requires
        scale <= DEC_SCALE_MAX,
        mant < (DEC_INT_MAX + 1) * pow10(scale),
    ensures
        spec_parse_dec_body(decimal_body(mant, scale)) == Some((mant, scale)),
        decimal_body(mant, scale).len() >= 1,
        forall|i: int|
            0 <= i < decimal_body(mant, scale).len() ==> is_digit(
                #[trigger] decimal_body(mant, scale)[i],
            ) || decimal_body(mant, scale)[i] == DOT,
        is_digit(decimal_body(mant, scale)[0]),
        is_digit(decimal_body(mant, scale).last()),
{
    let p = pow10(scale);
    lemma_pow10_pos(scale);
    let ip = mant / p;
    let fp = mant % p;
    lemma_fundamental_div_mod(mant as int, p as int);
    assert(ip <= DEC_INT_MAX) by {
        if ip > DEC_INT_MAX {
            assert((p as int) * (ip as int) >= (p as int) * ((DEC_INT_MAX + 1) as int))
                by (nonlinear_arith)
                requires
                    ip >= DEC_INT_MAX + 1,
                    p >= 1,
            ;
            assert((p as int) * ((DEC_INT_MAX + 1) as int) == ((DEC_INT_MAX + 1) as int) * (
            p as int)) by (nonlinear_arith);
        }
    }
    lemma_dec_digits(ip);
    lemma_val_digits_nonneg(dec_digits(ip));
    let ipd = dec_digits(ip);
    let s = decimal_body(mant, scale);
    if scale == 0 {
        assert(p == 1);
        assert(mant == 1 * ip + fp && 0 <= fp < 1);
        assert(ip == mant);
        assert(s == ipd);
        assert forall|i: int| 0 <= i < s.len() implies s[i] != DOT by {
            assert(is_digit(s[i]));
        }
        crate::text::lemma_find_first_is(s, DOT, s.len() as int);
        assert(spec_parse_dec_body(s) == Some((mant, scale)));
    } else {
        lemma_frac_digits(fp, scale);
        let fpd = frac_digits(fp, scale);
        assert(s == ipd + seq![DOT] + fpd);
        assert forall|i: int| 0 <= i < ipd.len() implies s[i] != DOT by {
            assert(s[i] == ipd[i]);
            assert(is_digit(ipd[i]));
        }
        assert(s[ipd.len() as int] == DOT);
        crate::text::lemma_find_first_is(s, DOT, ipd.len() as int);
        let bip = s.subrange(0, ipd.len() as int);
        let bfp = s.subrange(ipd.len() as int + 1, s.len() as int);
        assert(bip =~= ipd);
        assert(bfp =~= fpd);
        assert(fpd.len() == scale);
        assert(all_digits(bfp));
        assert(bfp.subrange(0, scale as int) =~= fpd);
        assert((ip * p + fp) as int == (p as int) * (ip as int) + fp) by (nonlinear_arith);
        assert(val_digits(bip) * pow10(scale) + val_digits(fpd.subrange(0, scale as int))
            == mant) by {
            assert(fpd.subrange(0, scale as int) =~= fpd);
        }
        assert(spec_parse_dec_body(s) == Some((mant, scale)));
        assert(is_digit(s[0])) by {
            assert(s[0] == ipd[0]);
        }
        assert(is_digit(s.last())) by {
            assert(s.last() == fpd.last());
            assert(is_digit(fpd[fpd.len() - 1]));
        }
        assert forall|i: int|
            0 <= i < s.len() implies is_digit(#[trigger] s[i]) || s[i] == DOT by {
            if i < ipd.len() {
                assert(s[i] == ipd[i]);
            } else if i > ipd.len() {
                assert(s[i] == fpd[i - ipd.len() - 1]);
            }
        }
    }
}

/// Parsing a rendered canonical decimal gives the decimal back.
pub proof fn lemma_decimal_roundtrip(d: Decimal)
    requires
        d.wf(),
    ensures
        spec_parse_decimal(decimal_text(d)) == Some(d),
{
    lemma_decimal_body_parse(d.mant as nat, d.scale as nat);
    let body = decimal_body(d.mant as nat, d.scale as nat);
    let s = decimal_text(d);
    if d.neg {
        assert(d.mant > 0);
        assert(s == seq![MINUS] + body);
        assert(s[0] == MINUS);
        assert(s.subrange(1, s.len() as int) =~= body);
        assert(canon_dec(true, d.mant as nat, d.scale as nat) == d) by {
            if d.scale > 0 {
                assert(d.mant % 10 != 0);
            }
        }
    } else {
        assert(s == body);
        assert(s[0] != MINUS) by {
            assert(is_digit(s[0]));
        }
        assert(canon_dec(false, d.mant as nat, d.scale as nat) == d) by {
            if d.mant == 0 {
                assert(d.scale == 0);
            } else if d.scale > 0 {
                assert(d.mant % 10 != 0);
            }
        }
    }
}

/// Classification of the bytes of a rendered decimal.
pub proof fn lemma_decimal_text_bytes(d: Decimal)
    requires
        d.wf_loose() || d.wf(),
    ensures
        decimal_text(d).len() >= 1,
        forall|i: int|
            0 <= i < decimal_text(d).len() ==> is_digit(#[trigger] decimal_text(d)[i])
                || decimal_text(d)[i] == DOT || decimal_text(d)[i] == MINUS,
        is_digit(decimal_text(d).last()),
        !d.neg ==> is_digit(decimal_text(d)[0]),
{
    let p = pow10(d.scale as nat);
    lemma_pow10_pos(d.scale as nat);
    let ip = d.mant as nat / p;
    let fp = d.mant as nat % p;
    lemma_fundamental_div_mod(d.mant as int, p as int);
    lemma_dec_digits(ip);
    let ipd = dec_digits(ip);
    let body = decimal_body(d.mant as nat, d.scale as nat);
    let s = decimal_text(d);
    if d.scale == 0 {
        assert(body == ipd);
    } else {
        lemma_frac_digits(fp, d.scale as nat);
        let fpd = frac_digits(fp, d.scale as nat);
        assert(body == ipd + seq![DOT] + fpd);
        assert(body.last() == fpd[fpd.len() - 1]);
        assert forall|i: int|
            0 <= i < body.len() implies is_digit(#[trigger] body[i]) || body[i] == DOT by {
            if i < ipd.len() {
                assert(body[i] == ipd[i]);
            } else if i > ipd.len() {
                assert(body[i] == fpd[i - ipd.len() - 1]);
            }
        }
    }
    if d.neg {
        assert(s == seq![MINUS] + body);
        assert forall|i: int|
            0 <= i < s.len() implies is_digit(#[trigger] s[i]) || s[i] == DOT || s[i]
            == MINUS by {
            if i >= 1 {
                assert(s[i] == body[i - 1]);
            }
        }
        assert(s.last() == body.last());
    } else {
        assert(s == body);
        assert(is_digit(s[0]));
    }
}

impl Rate {
    /// Reads a rate factor from its decimal text.
    pub fn from_text(s: &[u8]) -> (r: Option<Rate>)
        ensures
            r == spec_rate_from_text(s@),
            r is Some ==> r.unwrap().wf(),
    {
        match parse_decimal(s) {
            Some(d) => {
                if !d.neg && 1 <= d.mant && d.mant <= RATE_MANT_MAX && d.scale <= RATE_SCALE_MAX {
                    let p = pow10_u64(d.scale);
                    if d.mant * 100 >= p {
                        Some(Rate { mant: d.mant, scale: d.scale })
                    } else {
                        None
                    }
                } else {
                    None
                }
            },
            None => None,
        }
    }
}

} // verus!
