//! Decimal fields read as exact fixed-point values in millionths, and
//! decimal text for integers.
use vstd::prelude::*;
use crate::text::{all_digits, digits_from, digits_val, digits_value_capped, find_byte, is_digit};

verus! {

/// One unit in millionths.
pub const MICRO: i64 = 1000000;

pub open spec fn pow10(k: nat) -> nat
    decreases k,
{
    if k == 0 {
        1
    } else {
        10 * pow10((k - 1) as nat)
    }
}

/// The first six fractional digits, as millionths; further digits are not read.
pub open spec fn frac_micros(f: Seq<u8>) -> nat {
    if f.len() >= 6 {
        digits_val(f.subrange(0, 6))
    } else {
        digits_val(f) * pow10((6 - f.len()) as nat)
    }
}

/// A decimal number `[+|-]digits[.digits]` (either digit run may be empty,
/// not both; at most nine integer digits), in millionths, truncated toward zero.
pub open spec fn micros_value(s: Seq<u8>) -> Option<int> {
    let neg = s.len() > 0 && s[0] == 45u8;
    let signed = s.len() > 0 && (s[0] == 45u8 || s[0] == 43u8);
    let d = if signed { s.drop_first() } else { s };
    let dot = find_byte(d, 0, 46u8);
    let ip = match dot {
        Some(p) => d.subrange(0, p),
        None => d,
    };
    let fp = match dot {
        Some(p) => d.subrange(p + 1, d.len() as int),
        None => Seq::<u8>::empty(),
    };
    if ip.len() + fp.len() == 0 || ip.len() > 9 || !all_digits(ip) || !all_digits(fp) {
        None
    } else {
        let m = digits_val(ip) * 1000000 + frac_micros(fp);
        Some(if neg { -m } else { m as int })
    }
}

pub open spec fn micros_or(s: Seq<u8>, dflt: int) -> int {
    match micros_value(s) {
        Some(v) => v,
        None => dflt,
    }
}

/// Decimal digits of `n`, without leading zeros.
pub open spec fn decimal(n: nat) -> Seq<u8>
    decreases n,
{
    if n < 10 {
        seq![(48 + n) as u8]
    } else {
        decimal(n / 10).push((48 + n % 10) as u8)
    }
}

proof fn lemma_digits_val_bound(s: Seq<u8>)
    requires
        all_digits(s),
    ensures
        digits_val(s) < pow10(s.len()),
    decreases s.len(),
{
    if s.len() > 0 {
        let p = s.drop_last();
        assert(all_digits(p)) by {
            assert(forall|i: int| 0 <= i < p.len() ==> p[i] == s[i]);
        }
        lemma_digits_val_bound(p);
        assert(is_digit(s.last()));
        assert(pow10(s.len()) == 10 * pow10(p.len()));
    }
}

fn pow10_exec(k: usize) -> (r: u64)
    requires
        k <= 6,
    ensures
        r == pow10(k as nat),
{
    reveal_with_fuel(pow10, 7);
    if k == 0 {
        1
    } else if k == 1 {
        10
    } else if k == 2 {
        100
    } else if k == 3 {
        1000
    } else if k == 4 {
        10000
    } else if k == 5 {
        100000
    } else {
        1000000
    }
}

proof fn lemma_pow10_split(k: nat)
    requires
        k <= 6,
    ensures
        pow10(k) * pow10((6 - k) as nat) == 1000000,
        pow10(k) <= 1000000,
{
    reveal_with_fuel(pow10, 7);
    assert(pow10(0) == 1);
    assert(pow10(1) == 10);
    assert(pow10(2) == 100);
    assert(pow10(3) == 1000);
    assert(pow10(4) == 10000);
    assert(pow10(5) == 100000);
    assert(pow10(6) == 1000000);
    if k == 0 {
        assert((6 - k) as nat == 6);
    } else if k == 1 {
        assert((6 - k) as nat == 5);
    } else if k == 2 {
        assert((6 - k) as nat == 4);
    } else if k == 3 {
        assert((6 - k) as nat == 3);
    } else if k == 4 {
        assert((6 - k) as nat == 2);
    } else if k == 5 {
        assert((6 - k) as nat == 1);
    } else {
        assert((6 - k) as nat == 0);
    }
}

/// The first six digits of the digit string `fp`, in millionths.
fn frac_micros_exec(fp: &[u8]) -> (r: u64)
    requires
        all_digits(fp@),
    ensures
        r == frac_micros(fp@),
        r < 1000000,
{
    let take: usize = if fp.len() >= 6 { 6 } else { fp.len() };
    let head = &fp[0..take];
    assert(all_digits(head@)) by {
        assert(forall|i: int| 0 <= i < head@.len() ==> head@[i] == fp@[i]);
    }
    assert(head@.subrange(0, head@.len() as int) =~= head@);
    proof {
        lemma_digits_val_bound(head@);
        lemma_pow10_split(take as nat);
    }
    let fv: u64 = match digits_value_capped(head, 0) {
        Some(v) => v,
        None => {
            return 0;
        },
    };
    let scale = pow10_exec(6 - take);
    assert(fv * scale < 1000000) by (nonlinear_arith)
        requires
            fv < pow10(take as nat),
            pow10(take as nat) * scale == 1000000,
    {
    }
    if take < 6 {
        assert(head@ =~= fp@);
    }
    fv * scale
}

/// Reads a decimal field in millionths.
pub fn parse_micros(s: &[u8]) -> (r: Option<i64>)
    ensures
        match r {
            Some(v) => micros_value(s@) == Some(v as int),
            None => micros_value(s@) is None,
        },
        r matches Some(v) ==> -1000000000000000 < v < 1000000000000000,
{
    let n = s.len();
    let neg = n > 0 && s[0] == 45u8;
    let first: usize = if n > 0 && (s[0] == 45u8 || s[0] == 43u8) { 1 } else { 0 };
    let d = &s[first..n];
    let ghost gd = if first == 1 { s@.drop_first() } else { s@ };
    assert(d@ =~= gd);
    let dot = crate::text::find_byte_from(d, 0, 46u8);
    let (ip, fp): (&[u8], &[u8]) = match dot {
        Some(p) => (&d[0..p], &d[p + 1..d.len()]),
        None => (d, &d[d.len()..d.len()]),
    };
    proof {
        crate::text::lemma_find_byte_bound(gd, 0, 46u8);
    }
    assert(ip@ =~= (match find_byte(gd, 0, 46u8) {
        Some(p) => gd.subrange(0, p),
        None => gd,
    }));
    assert(fp@ =~= (match find_byte(gd, 0, 46u8) {
        Some(p) => gd.subrange(p + 1, gd.len() as int),
        None => Seq::<u8>::empty(),
    }));
    match parts_micros(ip, fp) {
        Some(m) => {
            if neg {
                Some(-(m as i64))
            } else {
                Some(m as i64)
            }
        },
        None => None,
    }
}

/// The value of integer digits `ip` and fractional digits `fp`, in millionths.
fn parts_micros(ip: &[u8], fp: &[u8]) -> (r: Option<u64>)
    ensures
        match r {
            Some(m) => !(ip@.len() + fp@.len() == 0 || ip@.len() > 9 || !all_digits(ip@)
                || !all_digits(fp@)) && m == digits_val(ip@) * 1000000 + frac_micros(fp@) && m
                < 1000000000000000,
            None => ip@.len() + fp@.len() == 0 || ip@.len() > 9 || !all_digits(ip@)
                || !all_digits(fp@),
        },
{
    if (ip.len() == 0 && fp.len() == 0) || ip.len() > 9 {
        return None;
    }
    assert(ip@.subrange(0, ip@.len() as int) =~= ip@);
    assert(fp@.subrange(0, fp@.len() as int) =~= fp@);
    if !digits_from(ip, 0) || !digits_from(fp, 0) {
        return None;
    }
    proof {
        lemma_digits_val_bound(ip@);
        assert(pow10(ip@.len()) <= 1000000000) by {
            reveal_with_fuel(pow10, 10);
        }
    }
    let iv: u64 = match digits_value_capped(ip, 0) {
        Some(v) => v,
        None => {
            return None;
        },
    };
    let fv = frac_micros_exec(fp);
    assert(iv < 1000000000);
    assert(iv * 1000000 + fv < 1000000000000000);
    Some(iv * 1000000 + fv)
}

/// Every value `micros_value` gives is less than `10^15` in magnitude.
pub proof fn lemma_micros_range(s: Seq<u8>)
    ensures
        micros_value(s) matches Some(v) ==> -1000000000000000 < v < 1000000000000000,
{
    let signed = s.len() > 0 && (s[0] == 45u8 || s[0] == 43u8);
    let d = if signed { s.drop_first() } else { s };
    let dot = find_byte(d, 0, 46u8);
    let ip = match dot {
        Some(p) => d.subrange(0, p),
        None => d,
    };
    let fp = match dot {
        Some(p) => d.subrange(p + 1, d.len() as int),
        None => Seq::<u8>::empty(),
    };
    if !(ip.len() + fp.len() == 0 || ip.len() > 9 || !all_digits(ip) || !all_digits(fp)) {
        lemma_digits_val_bound(ip);
        assert(pow10(ip.len()) <= 1000000000) by {
            reveal_with_fuel(pow10, 10);
        }
        if fp.len() >= 6 {
            let h = fp.subrange(0, 6);
            assert(all_digits(h)) by {
                assert(forall|i: int| 0 <= i < h.len() ==> h[i] == fp[i]);
            }
            lemma_digits_val_bound(h);
            reveal_with_fuel(pow10, 7);
        } else {
            lemma_digits_val_bound(fp);
            lemma_pow10_split(fp.len());
            assert(digits_val(fp) * pow10((6 - fp.len()) as nat) < 1000000) by (nonlinear_arith)
                requires
                    digits_val(fp) < pow10(fp.len()),
                    pow10(fp.len()) * pow10((6 - fp.len()) as nat) == 1000000,
            ;
        }
    }
}

/// `parse_micros` with a fallback.
pub fn parse_micros_or(s: &[u8], dflt: i64) -> (r: i64)
    ensures
        r as int == micros_or(s@, dflt as int),
{
    match parse_micros(s) {
        Some(v) => v,
        None => dflt,
    }
}

/// Appends the decimal digits of `n`.
pub fn push_decimal(out: &mut Vec<u8>, n: u32)
    ensures
        final(out)@ == old(out)@ + decimal(n as nat),
    decreases n,
{
    let ghost start = out@;
    if n >= 10 {
        push_decimal(out, n / 10);
    }
    out.push(48u8 + (n % 10) as u8);
    proof {
        if n >= 10 {
            assert(decimal(n as nat) == decimal((n / 10) as nat).push((48 + n % 10) as u8));
        }
    }
    assert(out@ =~= start + decimal(n as nat));
}

} // verus!
