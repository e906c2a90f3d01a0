//! Ordering results by path for the synchronous scan.
use vstd::prelude::*;
use crate::scan::ScanResult;
use core::cmp::Ordering;

verus! {

broadcast use vstd::seq_lib::group_to_multiset_ensures;

/// Lexicographic byte order.
pub open spec fn lex_lt(a: Seq<u8>, b: Seq<u8>) -> bool
    decreases a.len(),
{
    if a.len() == 0 {
        b.len() > 0
    } else if b.len() == 0 {
        false
    } else if a[0] != b[0] {
        a[0] < b[0]
    } else {
        lex_lt(a.drop_first(), b.drop_first())
    }
}

pub open spec fn lex_le(a: Seq<u8>, b: Seq<u8>) -> bool {
    lex_lt(a, b) || a == b
}

proof fn lemma_lex_suffix(a: Seq<u8>, b: Seq<u8>, i: int)
    requires
        0 <= i <= a.len(),
        i <= b.len(),
        a.subrange(0, i) == b.subrange(0, i),
    ensures
        lex_lt(a, b) == lex_lt(a.skip(i), b.skip(i)),
        (a == b) == (a.skip(i) == b.skip(i)),
    decreases i,
{
    if i > 0 {
        assert(a[0] == b[0]) by {
            assert(a.subrange(0, i)[0] == a[0]);
            assert(b.subrange(0, i)[0] == b[0]);
        }
        assert(a.drop_first().subrange(0, i - 1) =~= a.subrange(0, i).drop_first());
        assert(b.drop_first().subrange(0, i - 1) =~= b.subrange(0, i).drop_first());
        lemma_lex_suffix(a.drop_first(), b.drop_first(), i - 1);
        assert(a.drop_first().skip(i - 1) =~= a.skip(i));
        assert(b.drop_first().skip(i - 1) =~= b.skip(i));
        if a.skip(i) == b.skip(i) {
            assert(a =~= b) by {
                assert forall|j: int| 0 <= j < a.len() implies a[j] == b[j] by {
                    if j < i {
                        assert(a.subrange(0, i)[j] == a[j]);
                        assert(b.subrange(0, i)[j] == b[j]);
                    } else {
                        assert(a.skip(i)[j - i] == a[j]);
                        assert(b.skip(i)[j - i] == b[j]);
                    }
                }
            }
        }
    } else {
        assert(a.skip(0) =~= a);
        assert(b.skip(0) =~= b);
    }
}

proof fn lemma_lex_asym(a: Seq<u8>, b: Seq<u8>)
    ensures
        !(lex_lt(a, b) && lex_lt(b, a)),
        lex_lt(a, b) ==> a != b,
    decreases a.len(),
{
    if a.len() > 0 && b.len() > 0 && a[0] == b[0] {
        lemma_lex_asym(a.drop_first(), b.drop_first());
    }
}

/// Whether some result in `out` has path `p`.
pub open spec fn covered(out: Seq<ScanResult>, p: Seq<u8>) -> bool {
    exists|i: int| 0 <= i < out.len() && #[trigger] out[i].path@ == p
}

/// Whether `x` is one of `s[lo..]`.
pub open spec fn taken_from(s: Seq<ScanResult>, lo: int, x: ScanResult) -> bool {
    exists|j: int| lo <= j < s.len() && #[trigger] s[j] == x
}

/// Compares two paths byte by byte.
pub fn compare_paths(a: &[u8], b: &[u8]) -> (r: Ordering)
    ensures
        (r == Ordering::Less) == lex_lt(a@, b@),
        (r == Ordering::Equal) == (a@ == b@),
        (r == Ordering::Greater) == lex_lt(b@, a@),
{
    proof {
        lemma_lex_asym(a@, b@);
    }
    let mut i: usize = 0;
    while i < a.len() && i < b.len() && a[i] == b[i]
        invariant
            i <= a@.len(),
            i <= b@.len(),
            a@.subrange(0, i as int) == b@.subrange(0, i as int),
        decreases a@.len() - i,
    {
        assert(a@.subrange(0, i + 1) =~= a@.subrange(0, i as int).push(a@[i as int]));
        assert(b@.subrange(0, i + 1) =~= b@.subrange(0, i as int).push(b@[i as int]));
        i = i + 1;
    }
    proof {
        lemma_lex_suffix(a@, b@, i as int);
        lemma_lex_suffix(b@, a@, i as int);
    }
    if i < a.len() && i < b.len() {
        assert(a@.skip(i as int)[0] == a@[i as int]);
        assert(b@.skip(i as int)[0] == b@[i as int]);
        if a[i] < b[i] {
            Ordering::Less
        } else {
            Ordering::Greater
        }
    } else if i < b.len() {
        Ordering::Less
    } else if i < a.len() {
        Ordering::Greater
    } else {
        assert(a@.skip(i as int) =~= b@.skip(i as int));
        Ordering::Equal
    }
}

/// Relies on `slice::sort_unstable_by`: with a total order as comparator the
/// slice ends up a permutation of itself, sorted by that order (here: by
/// path, descending).
#[verifier::external_body]
fn sort_by_path_descending(v: &mut Vec<ScanResult>)
    ensures
        final(v)@.to_multiset() == old(v)@.to_multiset(),
        forall|i: int|
            0 <= i < final(v)@.len() - 1 ==> lex_le(
                #[trigger] final(v)@[i + 1].path@,
                final(v)@[i].path@,
            ),
{
    v.sort_unstable_by(|a, b| compare_paths(&b.path, &a.path));
}

/// The results in ascending order of path, one per path: every result kept
/// is one of the input, and every input path is kept.
pub fn sort_scan_results(v: Vec<ScanResult>) -> (r: Vec<ScanResult>)
    ensures
        forall|i: int| 0 <= i < r@.len() - 1 ==> lex_lt(#[trigger] r@[i].path@, r@[i + 1].path@),
        forall|i: int| 0 <= i < r@.len() ==> v@.contains(#[trigger] r@[i]),
        forall|j: int| 0 <= j < v@.len() ==> covered(r@, #[trigger] v@[j].path@),
{
    let mut s = v;
    sort_by_path_descending(&mut s);
    let ghost sorted = s@;
    let ghost n = sorted.len();
    let mut out: Vec<ScanResult> = Vec::new();
    while s.len() > 0
        invariant
            s@ == sorted.take(s@.len() as int),
            s@.len() <= n,
            n == sorted.len(),
            forall|i: int|
                0 <= i < n - 1 ==> lex_le(#[trigger] sorted[i + 1].path@, sorted[i].path@),
            out@.len() > 0 ==> s@.len() < n && out@.last().path@ == sorted[s@.len() as int].path@,
            forall|i: int| 0 <= i < out@.len() - 1 ==> lex_lt(#[trigger] out@[i].path@, out@[i + 1].path@),
            forall|i: int| 0 <= i < out@.len() ==> taken_from(sorted, s@.len() as int, #[trigger] out@[i]),
            forall|j: int| s@.len() <= j < n ==> covered(out@, #[trigger] sorted[j].path@),
        decreases s@.len(),
    {
        let ghost k = s@.len() - 1;
        let x = s.pop().unwrap();
        assert(x == sorted[k]);
        assert(s@ =~= sorted.take(k));
        let keep = if out.len() == 0 {
            true
        } else {
            match compare_paths(out[out.len() - 1].path.as_slice(), x.path.as_slice()) {
                Ordering::Equal => false,
                _ => true,
            }
        };
        let ghost old_out = out@;
        if keep {
            proof {
                if old_out.len() > 0 {
                    assert(lex_le(sorted[k + 1].path@, sorted[k].path@)) by {
                        assert(0 <= k < n - 1);
                    }
                    assert(lex_lt(old_out.last().path@, x.path@));
                }
            }
            out.push(x);
            proof {
                assert forall|i: int| 0 <= i < out@.len() implies taken_from(
                    sorted,
                    k,
                    #[trigger] out@[i],
                ) by {
                    if i < old_out.len() {
                        assert(out@[i] == old_out[i]);
                        assert(taken_from(sorted, k + 1, old_out[i]));
                        let j = choose|j: int| k + 1 <= j < n && #[trigger] sorted[j] == old_out[i];
                        assert(sorted[j] == out@[i]);
                    } else {
                        assert(out@[i] == sorted[k]);
                    }
                }
                assert forall|j: int| k <= j < n implies covered(out@, #[trigger] sorted[j].path@) by {
                    if j == k {
                        assert(out@[old_out.len() as int] == x);
                    } else {
                        assert(covered(old_out, sorted[j].path@));
                        let i = choose|i: int|
                            0 <= i < old_out.len() && #[trigger] old_out[i].path@ == sorted[j].path@;
                        assert(out@[i] == old_out[i]);
                    }
                }
            }
        } else {
            proof {
                assert forall|j: int| k <= j < n implies covered(out@, #[trigger] sorted[j].path@) by {
                    if j == k {
                        assert(out@[out@.len() - 1].path@ == sorted[j].path@);
                    }
                }
                assert forall|i: int| 0 <= i < out@.len() implies taken_from(
                    sorted,
                    k,
                    #[trigger] out@[i],
                ) by {
                    assert(taken_from(sorted, k + 1, out@[i]));
                    let j = choose|j: int| k + 1 <= j < n && #[trigger] sorted[j] == out@[i];
                    assert(sorted[j] == out@[i]);
                }
            }
        }
    }
    proof {
        assert forall|i: int| 0 <= i < out@.len() implies v@.contains(#[trigger] out@[i]) by {
            assert(taken_from(sorted, 0, out@[i]));
            let j = choose|j: int| 0 <= j < n && #[trigger] sorted[j] == out@[i];
            assert(sorted.contains(out@[i]));
            assert(sorted.to_multiset().count(out@[i]) > 0);
        }
        assert forall|j: int| 0 <= j < v@.len() implies covered(out@, #[trigger] v@[j].path@) by {
            assert(v@.contains(v@[j]));
            assert(v@.to_multiset().count(v@[j]) > 0);
            assert(sorted.contains(v@[j]));
            let jj = choose|jj: int| 0 <= jj < n && sorted[jj] == v@[j];
            assert(covered(out@, sorted[jj].path@));
        }
    }
    out
}

} // verus!
