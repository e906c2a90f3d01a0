//! Per-file scan policy: the modification-time cache, the mapper filter and
//! the outcome of one file.
use vstd::prelude::*;
use crate::chart::{chart_of, field_text, parse_osu_content, ChartModel, ParsedChart};
use crate::header::{header_of, parse_header_creator_and_version};
use crate::text::{
    field_count, field_start, lemma_find_byte_bound, lower_seq, memchr_comma, to_ascii_lower,
    trim_slice,
};

verus! {

/// Two modification times closer than this many microseconds are the same.
pub const UNCHANGED_WINDOW_MICROS: i64 = 500;

/// Whether a cached modification time (microseconds) makes a file unchanged.
pub open spec fn unchanged(cached: Option<i64>, mtime: i64) -> bool {
    match cached {
        Some(c) => -500 < c - mtime < 500,
        None => false,
    }
}

/// Whether the cache entry `cached` marks a file with modification time
/// `mtime` as unchanged: both in microseconds, less than 0.5 ms apart.
pub fn is_unchanged(cached: Option<i64>, mtime: i64) -> (r: bool)
    ensures
        r == unchanged(cached, mtime),
{
    match cached {
        Some(c) => {
            let d: i128 = c as i128 - mtime as i128;
            -(UNCHANGED_WINDOW_MICROS as i128) < d && d < UNCHANGED_WINDOW_MICROS as i128
        },
        None => false,
    }
}

/// The contents of a list of byte strings.
pub open spec fn views(v: Seq<Vec<u8>>) -> Seq<Seq<u8>> {
    v.map_values(|t: Vec<u8>| t@)
}

/// The terms among the first `k` comma-separated parts of a filter:
/// trimmed, lower-cased, empty ones dropped.
pub open spec fn filter_terms_upto(f: Seq<u8>, k: nat) -> Seq<Seq<u8>>
    decreases k,
{
    if k == 0 {
        Seq::empty()
    } else {
        let p = filter_terms_upto(f, (k - 1) as nat);
        let t = field_text(f, (k - 1) as nat);
        if t.len() > 0 {
            p.push(lower_seq(t))
        } else {
            p
        }
    }
}

/// The terms of a filter string.
pub open spec fn filter_terms(f: Seq<u8>) -> Seq<Seq<u8>> {
    filter_terms_upto(f, field_count(f))
}

/// Splits a filter string on commas into trimmed, lower-cased, non-empty terms.
pub fn parse_filter(filter: &[u8]) -> (r: Vec<Vec<u8>>)
    ensures
        views(r@) == filter_terms(filter@),
{
    let mut out: Vec<Vec<u8>> = Vec::new();
    let n = filter.len();
    if n == 0 {
        assert(views(out@) =~= Seq::<Seq<u8>>::empty());
        return out;
    }
    let mut start: usize = 0;
    let mut k: usize = 0;
    assert(views(out@) =~= filter_terms_upto(filter@, 0));
    loop
        invariant_except_break
            field_start(filter@, k as nat) == Some(start as int),
            views(out@) == filter_terms_upto(filter@, k as nat),
            k <= start <= n,
        invariant
            n == filter@.len(),
            n > 0,
        ensures
            views(out@) == filter_terms(filter@),
        decreases n - start,
    {
        let next = memchr_comma(filter, start);
        proof {
            lemma_find_byte_bound(filter@, start as int, 44u8);
        }
        let end = match next {
            Some(p) => p,
            None => n,
        };
        let t = trim_slice(&filter[start..end]);
        assert(t@ == field_text(filter@, k as nat));
        if t.len() > 0 {
            let ghost before = out@;
            let lt = to_ascii_lower(t);
            out.push(lt);
            assert(views(out@) =~= views(before).push(lower_seq(t@)));
        }
        assert(views(out@) == filter_terms_upto(filter@, (k + 1) as nat));
        match next {
            Some(p) => {
                assert(field_start(filter@, (k + 1) as nat) == Some(p + 1));
                start = p + 1;
                k = k + 1;
            },
            None => {
                proof {
                    crate::text::lemma_last_field(filter@, k as nat, start as int);
                }
                break;
            },
        }
    }
    out
}

/// Whether `needle` occurs in `hay`.
pub open spec fn contains(hay: Seq<u8>, needle: Seq<u8>) -> bool {
    exists|j: int|
        0 <= j && j + needle.len() <= hay.len() && #[trigger] hay.subrange(j, j + needle.len())
            == needle
}

/// Whether any term occurs, ignoring ASCII case, in the creator or the version.
pub open spec fn filter_match(terms: Seq<Seq<u8>>, creator: Seq<u8>, version: Seq<u8>) -> bool {
    exists|i: int|
        0 <= i < terms.len() && (contains(lower_seq(creator), #[trigger] terms[i]) || contains(
            lower_seq(version),
            terms[i],
        ))
}

fn occurs_at(hay: &[u8], needle: &[u8], j: usize) -> (r: bool)
    requires
        j + needle@.len() <= hay@.len(),
    ensures
        r == (hay@.subrange(j as int, j + needle@.len()) == needle@),
{
    let hl = hay.len();
    let mut i: usize = 0;
    while i < needle.len()
        invariant
            hl == hay@.len(),
            i <= needle@.len(),
            j + needle@.len() <= hay@.len(),
            forall|x: int| 0 <= x < i ==> hay@[j + x] == needle@[x],
        decreases needle@.len() - i,
    {
        if hay[j + i] != needle[i] {
            assert(hay@.subrange(j as int, j + needle@.len())[i as int] != needle@[i as int]);
            return false;
        }
        i = i + 1;
    }
    assert(hay@.subrange(j as int, j + needle@.len()) =~= needle@);
    true
}

/// Whether `hay` begins with `p`.
pub fn contains_prefix(hay: &[u8], p: &[u8]) -> (r: bool)
    requires
        p@.len() <= hay@.len(),
    ensures
        r == (hay@.subrange(0, p@.len() as int) == p@),
{
    occurs_at(hay, p, 0)
}

/// Whether `needle` occurs in `hay`.
pub fn contains_bytes(hay: &[u8], needle: &[u8]) -> (r: bool)
    ensures
        r == contains(hay@, needle@),
{
    let hl = hay.len();
    if needle.len() == 0 {
        assert(hay@.subrange(0, 0 + needle@.len() as int) =~= needle@);
        return true;
    }
    if needle.len() > hl {
        return false;
    }
    let end = hl - needle.len() + 1;
    let mut j: usize = 0;
    while j < end
        invariant
            end + needle@.len() == hay@.len() + 1,
            j <= end,
            forall|x: int|
                0 <= x < j ==> #[trigger] hay@.subrange(x, x + needle@.len()) != needle@,
        decreases end - j,
    {
        if occurs_at(hay, needle, j) {
            return true;
        }
        j = j + 1;
    }
    false
}

/// Whether a chart by `creator` with difficulty name `version` passes the
/// filter `terms` (lower-case terms, as `parse_filter` gives them).
pub fn file_matches_mapper(terms: &Vec<Vec<u8>>, creator: &[u8], version: &[u8]) -> (r: bool)
    ensures
        r == filter_match(views(terms@), creator@, version@),
{
    let c = to_ascii_lower(creator);
    let v = to_ascii_lower(version);
    let mut i: usize = 0;
    while i < terms.len()
        invariant
            i <= terms@.len(),
            c@ == lower_seq(creator@),
            v@ == lower_seq(version@),
            forall|x: int|
                0 <= x < i ==> !contains(c@, #[trigger] views(terms@)[x]) && !contains(
                    v@,
                    views(terms@)[x],
                ),
        decreases terms@.len() - i,
    {
        let t = &terms[i];
        assert(t@ == views(terms@)[i as int]);
        if contains_bytes(c.as_slice(), t.as_slice()) || contains_bytes(v.as_slice(), t.as_slice()) {
            return true;
        }
        i = i + 1;
    }
    false
}

/// The result for one file: its path, its modification time in
/// microseconds and, unless it was unchanged, its parsed chart.
#[derive(Clone, Debug)]
pub struct ScanResult {
    pub path: Vec<u8>,
    pub mtime: i64,
    pub chart: Option<ParsedChart>,
}

/// What became of one file.
#[derive(Clone, Debug)]
pub enum FileOutcome {
    Included(ScanResult),
    ExcludedByFilter,
    ExcludedByIoError,
}

/// What the caller must read before the outcome of a file can be decided.
#[derive(Clone, Copy, Debug, PartialEq, Eq, Structural)]
pub enum ReadPlan {
    /// Nothing: the file is reported unchanged.
    Nothing,
    /// The first bytes of the file, for the filter.
    Header,
    /// The whole file, to parse it.
    Full,
}

/// The number of leading bytes that a header read takes.
pub const HEADER_BYTES: usize = 8192;

pub open spec fn read_plan(cached: Option<i64>, mtime: i64, n_terms: nat) -> ReadPlan {
    if unchanged(cached, mtime) {
        if n_terms == 0 {
            ReadPlan::Nothing
        } else {
            ReadPlan::Header
        }
    } else {
        ReadPlan::Full
    }
}

/// What to read of a file with modification time `mtime`, given its cache
/// entry and the filter terms.
pub fn plan_read(cached: Option<i64>, mtime: i64, terms: &Vec<Vec<u8>>) -> (r: ReadPlan)
    ensures
        r == read_plan(cached, mtime, terms@.len()),
{
    if is_unchanged(cached, mtime) {
        if terms.len() == 0 {
            ReadPlan::Nothing
        } else {
            ReadPlan::Header
        }
    } else {
        ReadPlan::Full
    }
}

/// The outcome of a file in the model.
pub enum OutcomeModel {
    Unchanged,
    Parsed(ChartModel),
    Filtered,
    IoError,
}

/// The outcome of a file, given what was read of it (`None`: nothing could
/// be read). An unchanged file is reported without a payload, if it passes
/// the filter on its header; any other file is parsed in full and kept if
/// it passes the filter on its parsed creator and version.
pub open spec fn outcome_of(
    cached: Option<i64>,
    mtime: i64,
    terms: Seq<Seq<u8>>,
    bytes: Option<Seq<u8>>,
) -> OutcomeModel {
    if unchanged(cached, mtime) {
        if terms.len() == 0 {
            OutcomeModel::Unchanged
        } else {
            match bytes {
                None => OutcomeModel::IoError,
                Some(b) => {
                    let (c, v) = header_of(b);
                    if filter_match(terms, c, v) {
                        OutcomeModel::Unchanged
                    } else {
                        OutcomeModel::Filtered
                    }
                },
            }
        }
    } else {
        match bytes {
            None => OutcomeModel::IoError,
            Some(b) => {
                let ch = chart_of(b);
                if terms.len() > 0 && !filter_match(terms, ch.metadata.creator, ch.metadata.version) {
                    OutcomeModel::Filtered
                } else {
                    OutcomeModel::Parsed(ch)
                }
            },
        }
    }
}

/// The model of an outcome.
pub open spec fn outcome_view(o: FileOutcome) -> OutcomeModel {
    match o {
        FileOutcome::Included(r) => match r.chart {
            Some(c) => OutcomeModel::Parsed(c@),
            None => OutcomeModel::Unchanged,
        },
        FileOutcome::ExcludedByFilter => OutcomeModel::Filtered,
        FileOutcome::ExcludedByIoError => OutcomeModel::IoError,
    }
}

/// Decides the outcome of the file at `path` from what was read of it as
/// `plan_read` asked (`None` where the read failed).
pub fn scan_single_osu_file(
    path: &[u8],
    mtime: i64,
    cached: Option<i64>,
    terms: &Vec<Vec<u8>>,
    bytes: Option<&[u8]>,
) -> (r: FileOutcome)
    ensures
        outcome_view(r) == outcome_of(
            cached,
            mtime,
            views(terms@),
            match bytes {
                Some(b) => Some(b@),
                None => None,
            },
        ),
        r matches FileOutcome::Included(res) ==> res.path@ == path@ && res.mtime == mtime,
{
    if is_unchanged(cached, mtime) {
        if terms.len() > 0 {
            match bytes {
                None => {
                    return FileOutcome::ExcludedByIoError;
                },
                Some(b) => {
                    let (c, v) = parse_header_creator_and_version(b);
                    if !file_matches_mapper(terms, c.as_slice(), v.as_slice()) {
                        return FileOutcome::ExcludedByFilter;
                    }
                },
            }
        }
        return FileOutcome::Included(
            ScanResult { path: crate::chart::copy_bytes(path), mtime, chart: None },
        );
    }
    match bytes {
        None => FileOutcome::ExcludedByIoError,
        Some(b) => {
            let parsed = parse_osu_content(b);
            if terms.len() > 0 && !file_matches_mapper(
                terms,
                parsed.metadata.creator.as_slice(),
                parsed.metadata.version.as_slice(),
            ) {
                return FileOutcome::ExcludedByFilter;
            }
            FileOutcome::Included(
                ScanResult { path: crate::chart::copy_bytes(path), mtime, chart: Some(parsed) },
            )
        },
    }
}

/// Lemma: a file within the cache window is reported unchanged, without a
/// payload, whenever it is reported at all; a file outside it is reported
/// only with the full parse of what was read.
pub proof fn lemma_cache_rule(
    cached: Option<i64>,
    mtime: i64,
    terms: Seq<Seq<u8>>,
    bytes: Option<Seq<u8>>,
)
    ensures
        unchanged(cached, mtime) ==> !(outcome_of(cached, mtime, terms, bytes) is Parsed),
        unchanged(cached, mtime) && terms.len() == 0 ==> outcome_of(cached, mtime, terms, bytes)
            is Unchanged,
        !unchanged(cached, mtime) ==> !(outcome_of(cached, mtime, terms, bytes) is Unchanged),
        !unchanged(cached, mtime) && terms.len() == 0 && bytes is Some ==> outcome_of(
            cached,
            mtime,
            terms,
            bytes,
        ) == OutcomeModel::Parsed(chart_of(bytes->0)),
{
}

/// Whether the first bytes of a chart pass the filter; unreadable (`None`)
/// never does.
pub open spec fn header_passes(terms: Seq<Seq<u8>>, header: Option<Seq<u8>>) -> bool {
    match header {
        Some(b) => filter_match(terms, header_of(b).0, header_of(b).1),
        None => false,
    }
}

/// Whether a chart whose first bytes are `header` (`None`: unreadable)
/// passes the filter; used to count the matches ahead of a filtered scan.
pub fn header_matches_filter(terms: &Vec<Vec<u8>>, header: Option<&[u8]>) -> (r: bool)
    ensures
        r == header_passes(
            views(terms@),
            match header {
                Some(b) => Some(b@),
                None => None,
            },
        ),
{
    match header {
        Some(b) => {
            let (c, v) = parse_header_creator_and_version(b);
            file_matches_mapper(terms, c.as_slice(), v.as_slice())
        },
        None => false,
    }
}

const OSU: [u8; 3] = [111, 115, 117];

/// Whether a path names a chart file: its extension is `osu` in any case.
pub fn is_chart_file(path: &[u8]) -> (r: bool)
    ensures
        r == crate::text::eq_ci(crate::media::extension_of(path@), seq![111u8, 115u8, 117u8]),
{
    assert(OSU@ == seq![111u8, 115u8, 117u8]);
    crate::text::eq_ascii_ci(crate::media::path_extension(path), OSU.as_slice())
}

} // verus!
