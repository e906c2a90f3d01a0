//! Byte-level helpers for the line-oriented chart format: trimming,
//! case-insensitive comparison, comma-separated fields and integer fields.
use vstd::prelude::*;

verus! {

/// ASCII whitespace as `str::trim` sees it in the ASCII range.
pub open spec fn is_ws(b: u8) -> bool {
    b == 32u8 || (9u8 <= b && b <= 13u8)
}

pub open spec fn trim_left(s: Seq<u8>) -> Seq<u8>
    decreases s.len(),
{
    if s.len() > 0 && is_ws(s[0]) {
        trim_left(s.drop_first())
    } else {
        s
    }
}

pub open spec fn trim_right(s: Seq<u8>) -> Seq<u8>
    decreases s.len(),
{
    if s.len() > 0 && is_ws(s.last()) {
        trim_right(s.drop_last())
    } else {
        s
    }
}

/// The text with leading and trailing whitespace removed.
pub open spec fn trim(s: Seq<u8>) -> Seq<u8> {
    trim_right(trim_left(s))
}

pub open spec fn lower(b: u8) -> u8 {
    if 65u8 <= b && b <= 90u8 {
        (b + 32) as u8
    } else {
        b
    }
}

pub open spec fn lower_seq(s: Seq<u8>) -> Seq<u8> {
    s.map_values(|b: u8| lower(b))
}

/// Equal up to ASCII case.
pub open spec fn eq_ci(a: Seq<u8>, b: Seq<u8>) -> bool {
    a.len() == b.len() && forall|i: int| 0 <= i < a.len() ==> lower(#[trigger] a[i]) == lower(b[i])
}

/// Position of the first `c` at or after `start`.
pub open spec fn find_byte(s: Seq<u8>, start: int, c: u8) -> Option<int>
    decreases s.len() - start,
{
    if start < 0 || start >= s.len() {
        None
    } else if s[start] == c {
        Some(start)
    } else {
        find_byte(s, start + 1, c)
    }
}

/// Start of the `n`th comma-separated field, if the text has that many.
pub open spec fn field_start(s: Seq<u8>, n: nat) -> Option<int>
    decreases n,
{
    if n == 0 {
        Some(0)
    } else {
        match field_start(s, (n - 1) as nat) {
            Some(st) => match find_byte(s, st, 44u8) {
                Some(p) => Some(p + 1),
                None => None,
            },
            None => None,
        }
    }
}

/// End of the field that starts at `st`.
pub open spec fn field_end(s: Seq<u8>, st: int) -> int {
    match find_byte(s, st, 44u8) {
        Some(p) => p,
        None => s.len() as int,
    }
}

/// The `n`th comma-separated field.
pub open spec fn field(s: Seq<u8>, n: nat) -> Option<Seq<u8>> {
    match field_start(s, n) {
        Some(st) => Some(s.subrange(st, field_end(s, st))),
        None => None,
    }
}

/// The `n`th field, trimmed, or `dflt` where the text has fewer fields.
pub open spec fn field_or(s: Seq<u8>, n: nat, dflt: Seq<u8>) -> Seq<u8> {
    match field(s, n) {
        Some(f) => trim(f),
        None => trim(dflt),
    }
}

pub open spec fn count_byte(s: Seq<u8>, c: u8) -> nat
    decreases s.len(),
{
    if s.len() == 0 {
        0
    } else {
        count_byte(s.drop_last(), c) + if s.last() == c { 1nat } else { 0nat }
    }
}

/// Number of comma-separated fields: none in an empty text.
pub open spec fn field_count(s: Seq<u8>) -> nat {
    if s.len() == 0 {
        0
    } else {
        count_byte(s, 44u8) + 1
    }
}

pub open spec fn is_digit(b: u8) -> bool {
    48u8 <= b && b <= 57u8
}

pub open spec fn all_digits(s: Seq<u8>) -> bool {
    forall|i: int| 0 <= i < s.len() ==> is_digit(#[trigger] s[i])
}

pub open spec fn digits_val(s: Seq<u8>) -> nat
    decreases s.len(),
{
    if s.len() == 0 {
        0
    } else {
        digits_val(s.drop_last()) * 10 + (s.last() - 48) as nat
    }
}

/// The signed decimal integer that `s` spells, as `i32::from_str` reads it:
/// an optional sign, then one or more digits, within the range of `i32`.
pub open spec fn int_value(s: Seq<u8>) -> Option<int> {
    let neg = s.len() > 0 && s[0] == 45u8;
    let signed = s.len() > 0 && (s[0] == 45u8 || s[0] == 43u8);
    let d = if signed { s.drop_first() } else { s };
    if d.len() == 0 || !all_digits(d) {
        None
    } else {
        let v: int = if neg { -digits_val(d) } else { digits_val(d) as int };
        if i32::MIN <= v <= i32::MAX {
            Some(v)
        } else {
            None
        }
    }
}

/// `int_value` with a fallback.
pub open spec fn int_or(s: Seq<u8>, dflt: int) -> int {
    match int_value(s) {
        Some(v) => v,
        None => dflt,
    }
}

proof fn lemma_trim_left_suffix(s: Seq<u8>, i: int)
    requires
        0 <= i <= s.len(),
        forall|j: int| 0 <= j < i ==> is_ws(#[trigger] s[j]),
    ensures
        trim_left(s) == trim_left(s.subrange(i, s.len() as int)),
    decreases i,
{
    if i > 0 {
        assert(s.drop_first() =~= s.subrange(1, s.len() as int));
        lemma_trim_left_suffix(s.drop_first(), i - 1);
        assert(s.drop_first().subrange(i - 1, s.drop_first().len() as int) =~= s.subrange(
            i,
            s.len() as int,
        ));
    } else {
        assert(s =~= s.subrange(0, s.len() as int));
    }
}

proof fn lemma_trim_right_prefix(s: Seq<u8>, k: int)
    requires
        0 <= k <= s.len(),
        forall|j: int| k <= j < s.len() ==> is_ws(#[trigger] s[j]),
    ensures
        trim_right(s) == trim_right(s.subrange(0, k)),
    decreases s.len() - k,
{
    if k < s.len() {
        assert(s.drop_last() =~= s.subrange(0, s.len() - 1));
        lemma_trim_right_prefix(s.drop_last(), k);
        assert(s.drop_last().subrange(0, k) =~= s.subrange(0, k));
    } else {
        assert(s =~= s.subrange(0, k));
    }
}

/// Bounds of the trimmed part of `s`.
pub fn trim_bounds(s: &[u8]) -> (r: (usize, usize))
    ensures
        r.0 <= r.1 <= s@.len(),
        s@.subrange(r.0 as int, r.1 as int) == trim(s@),
{
    let n = s.len();
    let mut lo: usize = 0;
    while lo < n && (s[lo] == 32u8 || (9u8 <= s[lo] && s[lo] <= 13u8))
        invariant
            lo <= n,
            n == s@.len(),
            forall|j: int| 0 <= j < lo ==> is_ws(#[trigger] s@[j]),
        decreases n - lo,
    {
        lo = lo + 1;
    }
    proof {
        lemma_trim_left_suffix(s@, lo as int);
    }
    let ghost t = s@.subrange(lo as int, n as int);
    assert(lo == n || !is_ws(t[0]));
    assert(trim_left(t) == t);
    let mut hi: usize = n;
    while hi > lo && (s[hi - 1] == 32u8 || (9u8 <= s[hi - 1] && s[hi - 1] <= 13u8))
        invariant
            lo <= hi <= n,
            n == s@.len(),
            forall|j: int| hi <= j < n ==> is_ws(#[trigger] s@[j]),
        decreases hi,
    {
        hi = hi - 1;
    }
    proof {
        lemma_trim_right_prefix(t, hi - lo);
        assert(t.subrange(0, hi - lo) =~= s@.subrange(lo as int, hi as int));
        let u = s@.subrange(lo as int, hi as int);
        if u.len() > 0 {
            assert(!is_ws(u.last()));
        }
        assert(trim_right(u) == u);
    }
    (lo, hi)
}

/// The trimmed part of `s`.
pub fn trim_slice(s: &[u8]) -> (r: &[u8])
    ensures
        r@ == trim(s@),
        r@.len() <= s@.len(),
{
    let (lo, hi) = trim_bounds(s);
    &s[lo..hi]
}

/// Case-insensitive ASCII comparison.
pub fn eq_ascii_ci(a: &[u8], b: &[u8]) -> (r: bool)
    ensures
        r == eq_ci(a@, b@),
{
    if a.len() != b.len() {
        return false;
    }
    let mut i: usize = 0;
    while i < a.len()
        invariant
            a@.len() == b@.len(),
            i <= a@.len(),
            forall|j: int| 0 <= j < i ==> lower(#[trigger] a@[j]) == lower(b@[j]),
        decreases a@.len() - i,
    {
        let x = a[i];
        let y = b[i];
        let lx: u8 = if 65u8 <= x && x <= 90u8 { x + 32 } else { x };
        let ly: u8 = if 65u8 <= y && y <= 90u8 { y + 32 } else { y };
        if lx != ly {
            return false;
        }
        i = i + 1;
    }
    true
}

/// ASCII lower case of a byte string.
pub fn to_ascii_lower(s: &[u8]) -> (r: Vec<u8>)
    ensures
        r@ == lower_seq(s@),
{
    let mut r: Vec<u8> = Vec::new();
    let mut i: usize = 0;
    while i < s.len()
        invariant
            i <= s@.len(),
            r@ == lower_seq(s@.subrange(0, i as int)),
        decreases s@.len() - i,
    {
        let x = s[i];
        let lx: u8 = if 65u8 <= x && x <= 90u8 { x + 32 } else { x };
        r.push(lx);
        i = i + 1;
        assert(lower_seq(s@.subrange(0, i as int)) =~= lower_seq(s@.subrange(0, i - 1)).push(lx));
    }
    assert(s@.subrange(0, s@.len() as int) =~= s@);
    r
}

/// Position of the first `c` at or after `start`.
pub fn find_byte_from(bytes: &[u8], start: usize, c: u8) -> (r: Option<usize>)
    ensures
        r == (match find_byte(bytes@, start as int, c) {
            Some(p) => Some(p as usize),
            None => None::<usize>,
        }),
        match r {
            Some(p) => start <= p < bytes@.len(),
            None => true,
        },
{
    let mut i = start;
    while i < bytes.len()
        invariant
            start <= i,
            find_byte(bytes@, start as int, c) == find_byte(bytes@, i as int, c),
        decreases bytes@.len() - i,
    {
        if bytes[i] == c {
            return Some(i);
        }
        i = i + 1;
    }
    None
}

/// Fast comma search from a given start position.
pub fn memchr_comma(bytes: &[u8], start: usize) -> (r: Option<usize>)
    ensures
        r == (match find_byte(bytes@, start as int, 44u8) {
            Some(p) => Some(p as usize),
            None => None::<usize>,
        }),
        match r {
            Some(p) => start <= p < bytes@.len(),
            None => true,
        },
{
    find_byte_from(bytes, start, 44u8)
}

proof fn lemma_field_start_bound(s: Seq<u8>, n: nat)
    ensures
        field_start(s, n) matches Some(st) ==> 0 <= st <= s.len(),
    decreases n,
{
    if n > 0 {
        lemma_field_start_bound(s, (n - 1) as nat);
        match field_start(s, (n - 1) as nat) {
            Some(st) => lemma_find_byte_bound(s, st, 44u8),
            None => {},
        }
    }
}

pub proof fn lemma_find_byte_bound(s: Seq<u8>, start: int, c: u8)
    ensures
        find_byte(s, start, c) matches Some(p) ==> 0 <= start <= p < s.len() && s[p] == c,
    decreases s.len() - start,
{
    if 0 <= start < s.len() && s[start] != c {
        lemma_find_byte_bound(s, start + 1, c);
    }
}

/// Bounds of the `n`th comma-separated field of `line`.
pub fn csv_field_bounds(line: &[u8], n: usize) -> (r: Option<(usize, usize)>)
    ensures
        match r {
            Some((a, b)) => field_start(line@, n as nat) == Some(a as int) && b as int == field_end(
                line@,
                a as int,
            ) && a <= b <= line@.len(),
            None => field_start(line@, n as nat) is None,
        },
{
    let len = line.len();
    let mut start: usize = 0;
    let mut k: usize = 0;
    while k < n
        invariant
            len == line@.len(),
            k <= n,
            start <= line@.len(),
            field_start(line@, k as nat) == Some(start as int),
        decreases n - k,
    {
        let m = memchr_comma(line, start);
        proof {
            lemma_find_byte_bound(line@, start as int, 44u8);
        }
        match m {
            Some(pos) => {
                proof {
                    assert(find_byte(line@, start as int, 44u8) == Some(pos as int));
                    assert(field_start(line@, (k + 1) as nat) == Some(pos + 1));
                }
                start = pos + 1;
            },
            None => {
                proof {
                    lemma_field_start_none(line@, (k + 1) as nat, n as nat);
                }
                return None;
            },
        }
        k = k + 1;
    }
    let end = match memchr_comma(line, start) {
        Some(p) => p,
        None => line.len(),
    };
    proof {
        lemma_find_byte_bound(line@, start as int, 44u8);
    }
    Some((start, end))
}

proof fn lemma_field_start_none(s: Seq<u8>, k: nat, n: nat)
    requires
        k <= n,
        field_start(s, k) is None,
    ensures
        field_start(s, n) is None,
    decreases n - k,
{
    if k < n {
        lemma_field_start_none(s, k + 1, n);
    }
}

/// Get the `n`th comma-separated field from a line without allocating.
/// Returns `None` if there aren't enough fields.
pub fn csv_field(line: &[u8], n: usize) -> (r: Option<&[u8]>)
    ensures
        match r {
            Some(f) => field(line@, n as nat) == Some(f@),
            None => field(line@, n as nat) is None,
        },
{
    match csv_field_bounds(line, n) {
        Some((a, b)) => Some(&line[a..b]),
        None => None,
    }
}

/// The `n`th field, trimmed, or the trimmed `dflt`.
pub fn csv_field_or<'a>(line: &'a [u8], n: usize, dflt: &'a [u8]) -> (r: &'a [u8])
    ensures
        r@ == field_or(line@, n as nat, dflt@),
{
    match csv_field(line, n) {
        Some(f) => trim_slice(f),
        None => trim_slice(dflt),
    }
}

/// Count comma-separated fields without allocating (at most `usize::MAX`).
pub fn csv_field_count(line: &[u8]) -> (r: usize)
    ensures
        r as int == if field_count(line@) <= usize::MAX {
            field_count(line@) as int
        } else {
            usize::MAX as int
        },
{
    if line.len() == 0 {
        return 0;
    }
    let mut c: usize = 0;
    let mut i: usize = 0;
    while i < line.len()
        invariant
            i <= line@.len(),
            c == count_byte(line@.subrange(0, i as int), 44u8),
            c <= i,
        decreases line@.len() - i,
    {
        assert(line@.subrange(0, i + 1).drop_last() =~= line@.subrange(0, i as int));
        if line[i] == 44u8 {
            c = c + 1;
        }
        i = i + 1;
    }
    assert(line@.subrange(0, line@.len() as int) =~= line@);
    if c < usize::MAX {
        c + 1
    } else {
        c
    }
}

/// Lemma: commas of a concatenation add up.
pub proof fn lemma_count_concat(a: Seq<u8>, b: Seq<u8>, c: u8)
    ensures
        count_byte(a + b, c) == count_byte(a, c) + count_byte(b, c),
    decreases b.len(),
{
    if b.len() == 0 {
        assert(a + b =~= a);
    } else {
        assert((a + b).drop_last() =~= a + b.drop_last());
        lemma_count_concat(a, b.drop_last(), c);
    }
}

proof fn lemma_count_none(x: Seq<u8>, c: u8)
    requires
        forall|j: int| 0 <= j < x.len() ==> #[trigger] x[j] != c,
    ensures
        count_byte(x, c) == 0,
    decreases x.len(),
{
    if x.len() > 0 {
        lemma_count_none(x.drop_last(), c);
    }
}

/// Lemma: `find_byte` finds the first `c`.
pub proof fn lemma_find_byte_first(s: Seq<u8>, st: int, c: u8)
    requires
        0 <= st,
    ensures
        match find_byte(s, st, c) {
            Some(p) => forall|j: int| st <= j < p ==> #[trigger] s[j] != c,
            None => forall|j: int| st <= j < s.len() ==> #[trigger] s[j] != c,
        },
    decreases s.len() - st,
{
    if st < s.len() && s[st] != c {
        lemma_find_byte_first(s, st + 1, c);
    }
}

proof fn lemma_field_start_count(s: Seq<u8>, k: nat)
    ensures
        field_start(s, k) matches Some(st) ==> 0 <= st <= s.len() && count_byte(
            s.subrange(0, st),
            44u8,
        ) == k,
    decreases k,
{
    if k == 0 {
        assert(s.subrange(0, 0) =~= Seq::<u8>::empty());
    } else {
        lemma_field_start_count(s, (k - 1) as nat);
        match field_start(s, (k - 1) as nat) {
            Some(st) => {
                lemma_find_byte_bound(s, st, 44u8);
                lemma_find_byte_first(s, st, 44u8);
                match find_byte(s, st, 44u8) {
                    Some(p) => {
                        let mid = s.subrange(st, p);
                        lemma_count_none(mid, 44u8);
                        assert(s.subrange(0, p + 1) =~= s.subrange(0, st) + mid + seq![44u8]);
                        lemma_count_concat(s.subrange(0, st) + mid, seq![44u8], 44u8);
                        lemma_count_concat(s.subrange(0, st), mid, 44u8);
                        assert(seq![44u8].drop_last() =~= Seq::<u8>::empty());
                        assert(count_byte(Seq::<u8>::empty(), 44u8) == 0);
                        assert(count_byte(seq![44u8], 44u8) == 1);
                        assert(field_start(s, k) == Some(p + 1));
                    },
                    None => {},
                }
            },
            None => {},
        }
    }
}

/// Lemma: a text whose `k`th field has no comma after it has `k + 1` fields.
pub proof fn lemma_last_field(s: Seq<u8>, k: nat, st: int)
    requires
        s.len() > 0,
        field_start(s, k) == Some(st),
        find_byte(s, st, 44u8) is None,
    ensures
        field_count(s) == k + 1,
{
    lemma_field_start_count(s, k);
    lemma_find_byte_first(s, st, 44u8);
    let rest = s.subrange(st, s.len() as int);
    lemma_count_none(rest, 44u8);
    assert(s =~= s.subrange(0, st) + rest);
    lemma_count_concat(s.subrange(0, st), rest, 44u8);
}

proof fn lemma_digits_val_prefix(s: Seq<u8>, k: int)
    requires
        0 <= k <= s.len(),
        all_digits(s),
    ensures
        digits_val(s.subrange(0, k)) <= digits_val(s),
    decreases s.len() - k,
{
    if k < s.len() {
        lemma_digits_val_prefix(s, k + 1);
        let p = s.subrange(0, k + 1);
        assert(p.drop_last() =~= s.subrange(0, k));
        assert(is_digit(p.last()));
    } else {
        assert(s.subrange(0, k) =~= s);
    }
}

/// Whether every byte of `s` from `from` on is a decimal digit.
pub fn digits_from(s: &[u8], from: usize) -> (r: bool)
    requires
        from <= s@.len(),
    ensures
        r == all_digits(s@.subrange(from as int, s@.len() as int)),
{
    let mut i = from;
    while i < s.len()
        invariant
            from <= i <= s@.len(),
            all_digits(s@.subrange(from as int, i as int)),
        decreases s@.len() - i,
    {
        if !(48u8 <= s[i] && s[i] <= 57u8) {
            assert(s@.subrange(from as int, s@.len() as int)[i - from] == s@[i as int]);
            return false;
        }
        i = i + 1;
        assert(forall|j: int| 0 <= j < i - from ==> #[trigger] s@.subrange(from as int, i as int)[j]
            == s@[from + j]);
    }
    true
}

/// Value of the digit string `s[from..]`, if it is at most `2^31`.
pub fn digits_value_capped(s: &[u8], from: usize) -> (r: Option<u64>)
    requires
        from <= s@.len(),
        all_digits(s@.subrange(from as int, s@.len() as int)),
    ensures
        match r {
            Some(v) => v == digits_val(s@.subrange(from as int, s@.len() as int)) && v
                <= 2147483648,
            None => digits_val(s@.subrange(from as int, s@.len() as int)) > 2147483648,
        },
{
    let ghost d = s@.subrange(from as int, s@.len() as int);
    let mut acc: u64 = 0;
    let mut i: usize = from;
    while i < s.len()
        invariant
            from <= i <= s@.len(),
            d == s@.subrange(from as int, s@.len() as int),
            all_digits(d),
            acc == digits_val(s@.subrange(from as int, i as int)),
            acc <= 2147483648,
        decreases s@.len() - i,
    {
        let b = s[i];
        assert(d[i - from] == b);
        let ghost pre = s@.subrange(from as int, i + 1);
        assert(pre.drop_last() =~= s@.subrange(from as int, i as int));
        let next: u64 = acc * 10 + (b - 48) as u64;
        i = i + 1;
        if next > 2147483648 {
            proof {
                lemma_digits_val_prefix(d, i - from);
                assert(d.subrange(0, i - from) =~= pre);
            }
            return None;
        }
        acc = next;
    }
    Some(acc)
}

/// Reads a decimal integer the way `i32::from_str` does.
pub fn parse_i32(s: &[u8]) -> (r: Option<i32>)
    ensures
        match r {
            Some(v) => int_value(s@) == Some(v as int),
            None => int_value(s@) is None,
        },
{
    let n = s.len();
    if n == 0 {
        return None;
    }
    let neg = s[0] == 45u8;
    let first: usize = if s[0] == 45u8 || s[0] == 43u8 { 1 } else { 0 };
    let ghost d = if first == 1 { s@.drop_first() } else { s@ };
    assert(d =~= s@.subrange(first as int, n as int));
    if first == n {
        return None;
    }
    if !digits_from(s, first) {
        return None;
    }
    match digits_value_capped(s, first) {
        None => None,
        Some(acc) => {
            if neg {
                Some((0 - (acc as i64)) as i32)
            } else if acc <= 2147483647 {
                Some(acc as i32)
            } else {
                None
            }
        },
    }
}

/// `parse_i32` on the trimmed text, with a fallback.
pub fn parse_i32_or(s: &[u8], dflt: i32) -> (r: i32)
    ensures
        r as int == int_or(s@, dflt as int),
{
    match parse_i32(s) {
        Some(v) => v,
        None => dflt,
    }
}

} // verus!
