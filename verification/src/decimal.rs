//! Normalization of a decimal rate text to an integer price: the value is
//! multiplied by one hundred and truncated toward zero, clamped to the
//! signed 32-bit range and reinterpreted as unsigned (so a negative rate
//! wraps around — a documented edge of the policy, kept as observed).
//!
//! The accepted texts are the canonical decimal renderings of a JSON
//! number: an optional minus sign, an integer digit run, an optional
//! fraction, and an optional lower-case exponent.

use vstd::prelude::*;
use vstd::arithmetic::div_mod::lemma_basic_div;
use vstd::slice::{slice_subrange, slice_to_vec};
use crate::text::{find1_from, spec_find1};

verus! {

/// The minus-sign byte (ASCII `-`).
pub const MINUS_BYTE: u8 = 45;

/// The decimal-point byte (ASCII `.`).
pub const DOT_BYTE: u8 = 46;

/// The lower-case exponent marker byte (ASCII `e`).
pub const LOWER_E_BYTE: u8 = 101;

pub open spec fn is_digit(b: u8) -> bool {
    48 <= b <= 57
}

pub open spec fn all_digits(s: Seq<u8>) -> bool {
    forall|i: int| 0 <= i < s.len() ==> is_digit(#[trigger] s[i])
}

/// The number a run of decimal digits denotes.
pub open spec fn digits_val(s: Seq<u8>) -> int
    decreases s.len(),
{
    if s.len() == 0 {
        0
    } else {
        digits_val(s.drop_last()) * 10 + (s.last() - 48)
    }
}

pub open spec fn pow10(k: nat) -> int
    decreases k,
{
    if k == 0 {
        1
    } else {
        10 * pow10((k - 1) as nat)
    }
}

pub proof fn lemma_pow10_pos(k: nat)
    ensures
        pow10(k) >= 1,
    decreases k,
{
    if k > 0 {
        lemma_pow10_pos((k - 1) as nat);
    }
}

pub proof fn lemma_pow10_mono(j: nat, k: nat)
    requires
        j <= k,
    ensures
        pow10(j) <= pow10(k),
    decreases k,
{
    if j < k {
        lemma_pow10_mono(j, (k - 1) as nat);
        lemma_pow10_pos((k - 1) as nat);
    }
}

pub proof fn lemma_pow10_adds(a: nat, b: nat)
    ensures
        pow10(a + b) == pow10(a) * pow10(b),
    decreases a,
{
    if a > 0 {
        lemma_pow10_adds((a - 1) as nat, b);
        assert(pow10(a + b) == 10 * pow10(((a - 1) + b) as nat));
        assert(10 * (pow10((a - 1) as nat) * pow10(b)) == (10 * pow10((a - 1) as nat)) * pow10(
            b,
        )) by (nonlinear_arith);
    }
}

proof fn lemma_pow10_numerals()
    ensures
        pow10(5) == 100000,
        pow10(10) == 10000000000,
        pow10(11) == 100000000000,
        pow10(25) == 10000000000000000000000000,
        pow10(26) == 100000000000000000000000000,
        pow10(35) == 100000000000000000000000000000000000,
{
    reveal_with_fuel(pow10, 36);
}

pub proof fn lemma_digits_val_bound(s: Seq<u8>)
    requires
        all_digits(s),
    ensures
        0 <= digits_val(s) < pow10(s.len()),
    decreases s.len(),
{
    if s.len() > 0 {
        let t = s.drop_last();
        assert forall|i: int| 0 <= i < t.len() implies is_digit(#[trigger] t[i]) by {
            assert(t[i] == s[i]);
        }
        lemma_digits_val_bound(t);
        assert(is_digit(s[s.len() - 1]));
        assert(pow10(s.len()) == 10 * pow10(t.len()));
    }
}

/// The part after an optional leading minus sign.
pub open spec fn spec_m_of(t: Seq<u8>) -> Seq<u8> {
    if t.len() >= 1 && t[0] == MINUS_BYTE {
        t.skip(1)
    } else {
        t
    }
}

/// Whether the text carries a leading minus sign.
pub open spec fn spec_neg_of(t: Seq<u8>) -> bool {
    t.len() >= 1 && t[0] == MINUS_BYTE
}

/// The mantissa: what precedes the first exponent marker, if any.
pub open spec fn spec_mant_of(m: Seq<u8>) -> Seq<u8> {
    match spec_find1(m, LOWER_E_BYTE) {
        None => m,
        Some(i) => m.take(i),
    }
}

/// The exponent text: what follows the first exponent marker.
pub open spec fn spec_epart_of(m: Seq<u8>) -> Seq<u8> {
    match spec_find1(m, LOWER_E_BYTE) {
        None => Seq::empty(),
        Some(i) => m.skip(i + 1),
    }
}

/// Whether the exponent is negative.
pub open spec fn spec_eneg_of(epart: Seq<u8>) -> bool {
    epart.len() >= 1 && epart[0] == MINUS_BYTE
}

/// The exponent's digit run.
pub open spec fn spec_edigs_of(epart: Seq<u8>) -> Seq<u8> {
    if spec_eneg_of(epart) {
        epart.skip(1)
    } else {
        epart
    }
}

/// The integer digit run of the mantissa.
pub open spec fn spec_ipart_of(mant: Seq<u8>) -> Seq<u8> {
    match spec_find1(mant, DOT_BYTE) {
        None => mant,
        Some(d) => mant.take(d),
    }
}

/// The fraction digit run of the mantissa.
pub open spec fn spec_fpart_of(mant: Seq<u8>) -> Seq<u8> {
    match spec_find1(mant, DOT_BYTE) {
        None => Seq::empty(),
        Some(d) => mant.skip(d + 1),
    }
}

/// Whether a rate text is well formed: sign, digits, optional fraction and
/// optional exponent, within the sizes any canonical rendering fits.
pub open spec fn spec_wf_number(t: Seq<u8>) -> bool {
    let m = spec_m_of(t);
    let mant = spec_mant_of(m);
    let epart = spec_epart_of(m);
    let edigs = spec_edigs_of(epart);
    let ipart = spec_ipart_of(mant);
    let fpart = spec_fpart_of(mant);
    &&& ipart.len() >= 1
    &&& ipart.len() + fpart.len() <= 25
    &&& all_digits(ipart)
    &&& all_digits(fpart)
    &&& (spec_find1(mant, DOT_BYTE) is Some ==> fpart.len() >= 1)
    &&& (spec_find1(m, LOWER_E_BYTE) is Some ==> 1 <= edigs.len() <= 5 && all_digits(edigs))
}

/// `d` shifted by `k` decimal places, truncating toward zero for
/// nonnegative `d`.
pub open spec fn spec_shift(d: int, k: int) -> int {
    if k >= 0 {
        d * pow10(k as nat)
    } else {
        d / pow10((-k) as nat)
    }
}

/// The value of a well-formed rate text multiplied by one hundred and
/// truncated toward zero.
pub open spec fn spec_cents(t: Seq<u8>) -> int {
    let m = spec_m_of(t);
    let mant = spec_mant_of(m);
    let epart = spec_epart_of(m);
    let edigs = spec_edigs_of(epart);
    let ipart = spec_ipart_of(mant);
    let fpart = spec_fpart_of(mant);
    let d = digits_val(ipart + fpart);
    let x = if spec_eneg_of(epart) {
        -digits_val(edigs)
    } else {
        digits_val(edigs)
    };
    let mag = spec_shift(d, x + 2 - fpart.len());
    if spec_neg_of(t) {
        -mag
    } else {
        mag
    }
}

/// The cents value clamped to the signed 32-bit range and reinterpreted
/// as unsigned.
pub open spec fn spec_price_of_cents(c: int) -> u32 {
    if c > 2147483647 {
        2147483647u32
    } else if c < -2147483648 {
        2147483648u32
    } else if c >= 0 {
        c as u32
    } else {
        (c + 4294967296) as u32
    }
}

/// The integer price a rate text normalizes to; none when malformed.
pub open spec fn spec_price_of_text(t: Seq<u8>) -> Option<u32> {
    if spec_wf_number(t) {
        Some(spec_price_of_cents(spec_cents(t)))
    } else {
        None
    }
}

fn all_digits_check(s: &[u8]) -> (r: bool)
    ensures
        r == all_digits(s@),
{
    let mut i: usize = 0;
    while i < s.len()
        invariant
            i <= s@.len(),
            forall|j: int| 0 <= j < i ==> is_digit(#[trigger] s@[j]),
        decreases s@.len() - i,
    {
        if s[i] < 48 || s[i] > 57 {
            return false;
        }
        i = i + 1;
    }
    true
}

fn digits_value(s: &[u8]) -> (r: u128)
    requires
        all_digits(s@),
        s@.len() <= 25,
    ensures
        r == digits_val(s@),
{
    let mut acc: u128 = 0;
    let mut i: usize = 0;
    while i < s.len()
        invariant
            i <= s@.len(),
            all_digits(s@),
            s@.len() <= 25,
            acc == digits_val(s@.take(i as int)),
        decreases s@.len() - i,
    {
        proof {
            let pre = s@.take(i as int);
            assert forall|j: int| 0 <= j < pre.len() implies is_digit(#[trigger] pre[j]) by {
                assert(pre[j] == s@[j]);
            }
            lemma_digits_val_bound(pre);
            lemma_pow10_mono(i as nat, 25);
            lemma_pow10_numerals();
            assert(is_digit(s@[i as int]));
            assert(s@.take(i as int + 1).drop_last() =~= pre);
        }
        acc = acc * 10 + ((s[i] - 48) as u128);
        i = i + 1;
    }
    proof {
        assert(s@.take(s@.len() as int) =~= s@);
    }
    acc
}

fn pow10_u128(k: usize) -> (r: u128)
    requires
        k <= 26,
    ensures
        r == pow10(k as nat),
{
    proof {
        reveal_with_fuel(pow10, 27);
    }
    if k == 0 { 1 } else if k == 1 { 10 } else if k == 2 { 100 } else if k == 3 { 1000 } else if k
        == 4 { 10000 } else if k == 5 { 100000 } else if k == 6 { 1000000 } else if k == 7 {
        10000000
    } else if k == 8 { 100000000 } else if k == 9 { 1000000000 } else if k == 10 {
        10000000000
    } else if k == 11 { 100000000000 } else if k == 12 { 1000000000000 } else if k == 13 {
        10000000000000
    } else if k == 14 { 100000000000000 } else if k == 15 { 1000000000000000 } else if k == 16 {
        10000000000000000
    } else if k == 17 { 100000000000000000 } else if k == 18 { 1000000000000000000 } else if k
        == 19 { 10000000000000000000 } else if k == 20 { 100000000000000000000 } else if k == 21 {
        1000000000000000000000
    } else if k == 22 { 10000000000000000000000 } else if k == 23 { 100000000000000000000000 } else if k == 24 {
        1000000000000000000000000
    } else if k == 25 { 10000000000000000000000000 } else {
        100000000000000000000000000
    }
}

/// The price of a magnitude `d128` shifted by `k` decimal places, with the
/// sign applied, clamped and reinterpreted as `spec_price_of_cents` says.
fn shifted_price(neg: bool, d128: u128, k: i64) -> (r: u32)
    requires
        d128 < pow10(25),
        -200000 <= k <= 200000,
    ensures
        r == spec_price_of_cents(
            if neg {
                -spec_shift(d128 as int, k as int)
            } else {
                spec_shift(d128 as int, k as int)
            },
        ),
{
    let ghost d_int = d128 as int;
    let ghost k_int = k as int;
    let ghost cents_mag = spec_shift(d_int, k_int);
    let mut mag: u128;
    if k < 0 {
        let nk = 0i64 - k;
        let j2: usize = if nk > 26 {
            26
        } else {
            nk as usize
        };
        let p = pow10_u128(j2);
        proof {
            lemma_pow10_pos(j2 as nat);
        }
        mag = d128 / p;
        proof {
            if nk > 26 {
                lemma_pow10_numerals();
                lemma_pow10_mono(25, 26);
                lemma_pow10_mono(26, (0 - k_int) as nat);
                lemma_pow10_pos((0 - k_int) as nat);
                lemma_basic_div(d_int, pow10(26));
                lemma_basic_div(d_int, pow10((0 - k_int) as nat));
                assert(mag == 0);
                assert(cents_mag == 0);
            } else {
                assert(j2 as int == 0 - k_int);
                assert(mag == cents_mag);
            }
        }
    } else if k > 10 {
        if d128 == 0 {
            mag = 0;
            proof {
                assert(cents_mag == 0);
            }
        } else {
            mag = 4294967296u128;
            proof {
                lemma_pow10_pos(k_int as nat);
                lemma_pow10_mono(11, k_int as nat);
                lemma_pow10_numerals();
                assert(d_int * pow10(k_int as nat) >= pow10(k_int as nat)) by (nonlinear_arith)
                    requires
                        d_int >= 1,
                        pow10(k_int as nat) >= 1,
                ;
                assert(cents_mag > 2147483647);
            }
        }
    } else {
        let p = pow10_u128(k as usize);
        proof {
            lemma_pow10_mono(k as nat, 10);
            lemma_pow10_pos(k as nat);
            lemma_pow10_adds(25, 10);
            lemma_pow10_numerals();
            assert(d_int * pow10(k_int as nat) < pow10(25) * pow10(10)) by (nonlinear_arith)
                requires
                    0 <= d_int < pow10(25),
                    0 < pow10(k_int as nat) <= pow10(10),
                    0 < pow10(25),
                    0 < pow10(10),
            ;
        }
        mag = d128 * p;
        proof {
            assert(mag == cents_mag);
        }
    }
    proof {
        assert(mag == cents_mag || (mag > 2147483647 && cents_mag > 2147483647));
        assert(cents_mag >= 0) by {
            if k_int >= 0 {
                lemma_pow10_pos(k_int as nat);
                assert(d_int * pow10(k_int as nat) >= 0) by (nonlinear_arith)
                    requires
                        d_int >= 0,
                        pow10(k_int as nat) >= 0,
                ;
            } else {
                lemma_pow10_pos((0 - k_int) as nat);
                vstd::arithmetic::div_mod::lemma_div_pos_is_pos(d_int, pow10((0 - k_int) as nat));
            }
        }
    }
    if neg {
        if mag == 0 {
            0
        } else if mag >= 2147483648 {
            2147483648
        } else {
            (4294967296u64 - (mag as u64)) as u32
        }
    } else {
        if mag > 2147483647 {
            2147483647
        } else {
            mag as u32
        }
    }
}

/// Normalizes one rate text to its integer price, exactly as
/// `spec_price_of_text` describes.
#[verifier::rlimit(100)]
pub fn price_of_text(t: &[u8]) -> (r: Option<u32>)
    ensures
        r == spec_price_of_text(t@),
{
    let n = t.len();
    let neg = if n >= 1 {
        t[0] == MINUS_BYTE
    } else {
        false
    };
    let ghost ms = spec_m_of(t@);
    let m: Vec<u8> = if neg {
        slice_to_vec(slice_subrange(t, 1, n))
    } else {
        slice_to_vec(slice_subrange(t, 0, n))
    };
    proof {
        if neg {
            assert(m@ =~= t@.skip(1));
        } else {
            assert(m@ =~= t@);
        }
        assert(m@ == ms);
    }
    let mut mantv: Vec<u8>;
    let mut epartv: Vec<u8> = Vec::new();
    let has_e: bool;
    match find1_from(m.as_slice(), 0, LOWER_E_BYTE) {
        None => {
            proof {
                assert(m@.skip(0) =~= m@);
            }
            has_e = false;
            mantv = m;
        },
        Some(i) => {
            proof {
                assert(m@.skip(0) =~= m@);
            }
            has_e = true;
            mantv = slice_to_vec(slice_subrange(m.as_slice(), 0, i));
            epartv = slice_to_vec(slice_subrange(m.as_slice(), i + 1, m.len()));
            proof {
                assert(mantv@ =~= ms.take(i as int));
                assert(epartv@ =~= ms.skip(i as int + 1));
            }
        },
    }
    proof {
        assert(has_e == (spec_find1(ms, LOWER_E_BYTE) is Some));
        assert(mantv@ == spec_mant_of(ms));
        assert(epartv@ =~= spec_epart_of(ms));
    }
    let ghost eps = spec_epart_of(ms);
    let eneg = if epartv.len() >= 1 {
        epartv[0] == MINUS_BYTE
    } else {
        false
    };
    let edigsv: Vec<u8> = if eneg {
        slice_to_vec(slice_subrange(epartv.as_slice(), 1, epartv.len()))
    } else {
        epartv
    };
    proof {
        assert(eneg == spec_eneg_of(eps));
        if eneg {
            assert(edigsv@ =~= eps.skip(1));
        }
        assert(edigsv@ == spec_edigs_of(eps));
    }
    let ghost mts = spec_mant_of(ms);
    let mut ipartv: Vec<u8>;
    let mut fpartv: Vec<u8> = Vec::new();
    let has_dot: bool;
    match find1_from(mantv.as_slice(), 0, DOT_BYTE) {
        None => {
            proof {
                assert(mantv@.skip(0) =~= mantv@);
            }
            has_dot = false;
            ipartv = mantv;
        },
        Some(d0) => {
            proof {
                assert(mantv@.skip(0) =~= mantv@);
            }
            has_dot = true;
            ipartv = slice_to_vec(slice_subrange(mantv.as_slice(), 0, d0));
            fpartv = slice_to_vec(slice_subrange(mantv.as_slice(), d0 + 1, mantv.len()));
            proof {
                assert(ipartv@ =~= mts.take(d0 as int));
                assert(fpartv@ =~= mts.skip(d0 as int + 1));
            }
        },
    }
    proof {
        assert(has_dot == (spec_find1(mts, DOT_BYTE) is Some));
        assert(ipartv@ == spec_ipart_of(mts));
        assert(fpartv@ =~= spec_fpart_of(mts));
    }
    if ipartv.len() < 1 {
        return None;
    }
    if ipartv.len() > 25 {
        return None;
    }
    if fpartv.len() > 25 - ipartv.len() {
        return None;
    }
    if !all_digits_check(ipartv.as_slice()) {
        return None;
    }
    if !all_digits_check(fpartv.as_slice()) {
        return None;
    }
    if has_dot && fpartv.len() < 1 {
        return None;
    }
    if has_e {
        if edigsv.len() < 1 || edigsv.len() > 5 {
            return None;
        }
        if !all_digits_check(edigsv.as_slice()) {
            return None;
        }
    }
    proof {
        assert(spec_wf_number(t@));
    }
    let ghost ip = ipartv@;
    let ghost fp = fpartv@;
    let flen = fpartv.len();
    let mut digs = ipartv;
    let mut j: usize = 0;
    while j < fpartv.len()
        invariant
            j <= fp.len(),
            fp == fpartv@,
            digs@ == ip + fp.take(j as int),
        decreases fp.len() - j,
    {
        digs.push(fpartv[j]);
        proof {
            assert(ip + fp.take(j as int + 1) =~= (ip + fp.take(j as int)).push(fp[j as int]));
        }
        j = j + 1;
    }
    proof {
        assert(fp.take(flen as int) =~= fp);
        assert(digs@ == ip + fp);
        assert forall|q: int| 0 <= q < digs@.len() implies is_digit(#[trigger] digs@[q]) by {
            if q < ip.len() {
                assert(digs@[q] == ip[q]);
            } else {
                assert(digs@[q] == fp[q - ip.len()]);
            }
        }
    }
    let d128 = digits_value(digs.as_slice());
    let ghost d_int = digits_val(ip + fp);
    proof {
        lemma_digits_val_bound(ip + fp);
        lemma_digits_val_bound(edigsv@);
        lemma_pow10_mono(edigsv@.len(), 5);
        lemma_pow10_mono(digs@.len(), 25);
        lemma_pow10_numerals();
    }
    let x128 = digits_value(edigsv.as_slice());
    let xi: i64 = x128 as i64;
    let k: i64 = (if eneg {
        0i64 - xi
    } else {
        xi
    }) + 2 - (flen as i64);
    let ghost k_int = (if spec_eneg_of(eps) {
        -digits_val(spec_edigs_of(eps))
    } else {
        digits_val(spec_edigs_of(eps))
    }) + 2 - spec_fpart_of(mts).len();
    proof {
        assert(k as int == k_int);
    }
    let price = shifted_price(neg, d128, k);
    proof {
        assert(neg == spec_neg_of(t@));
        assert(spec_cents(t@) == if neg {
            -spec_shift(d_int, k_int)
        } else {
            spec_shift(d_int, k_int)
        });
        assert(price == spec_price_of_cents(spec_cents(t@)));
    }
    Some(price)
}

} // verus!
