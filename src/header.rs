//! The cheap partial parse of a chart's first bytes: creator and version only.
use vstd::prelude::*;
use crate::chart::{
    chart_of, copy_bytes, initial_state, is_comment, is_header, key_value, line_step, parse_from,
    section_of, split_key_value, OsuSection, StateModel,
};
use crate::keys::{CREATOR, METADATA, VERSION};
use crate::text::{
    eq_ascii_ci, eq_ci, find_byte, find_byte_from, lemma_find_byte_bound, lower, trim, trim_slice,
};

verus! {

/// What the header scan has found so far.
#[verifier::ext_equal]
pub struct HeaderModel {
    pub in_metadata: bool,
    pub creator: Seq<u8>,
    pub version: Seq<u8>,
    pub stopped: bool,
}

pub open spec fn header_initial() -> HeaderModel {
    HeaderModel {
        in_metadata: false,
        creator: Seq::empty(),
        version: Seq::empty(),
        stopped: false,
    }
}

/// One line of the header scan. Inside `[Metadata]` the last `Creator` and
/// `Version` lines win; the scan stops only at a later section header that
/// is reached with both values found.
pub open spec fn header_step(hs: HeaderModel, line: Seq<u8>) -> HeaderModel {
    let t = trim(line);
    if hs.stopped || t.len() == 0 || is_comment(t) {
        hs
    } else if is_header(t) {
        let m = eq_ci(t.subrange(1, t.len() - 1), METADATA@);
        HeaderModel {
            in_metadata: m,
            stopped: !m && hs.creator.len() > 0 && hs.version.len() > 0,
            ..hs
        }
    } else if hs.in_metadata {
        match key_value(t) {
            Some((k, v)) => {
                let c = if eq_ci(k, CREATOR@) {
                    v
                } else {
                    hs.creator
                };
                let ver = if !eq_ci(k, CREATOR@) && eq_ci(k, VERSION@) {
                    v
                } else {
                    hs.version
                };
                HeaderModel { creator: c, version: ver, ..hs }
            },
            None => hs,
        }
    } else {
        hs
    }
}

/// The header scan over the lines of `c` from `pos` on.
pub open spec fn header_from(c: Seq<u8>, pos: int, hs: HeaderModel) -> HeaderModel
    decreases c.len() - pos,
{
    let e = match find_byte(c, pos, 10u8) {
        Some(p) => p,
        None => c.len() as int,
    };
    let hs2 = header_step(hs, c.subrange(pos, e));
    if e >= c.len() || e < pos {
        hs2
    } else {
        header_from(c, e + 1, hs2)
    }
}

/// Creator and version as the header scan of `c` finds them (empty if absent).
pub open spec fn header_of(c: Seq<u8>) -> (Seq<u8>, Seq<u8>) {
    let hs = header_from(c, 0, header_initial());
    (hs.creator, hs.version)
}

/// The header scan in progress.
pub struct HeaderScan {
    pub in_metadata: bool,
    pub creator: Vec<u8>,
    pub version: Vec<u8>,
    pub stopped: bool,
}

impl View for HeaderScan {
    type V = HeaderModel;

    open spec fn view(&self) -> HeaderModel {
        HeaderModel {
            in_metadata: self.in_metadata,
            creator: self.creator@,
            version: self.version@,
            stopped: self.stopped,
        }
    }
}

fn header_line(hs: &mut HeaderScan, line: &[u8])
    ensures
        final(hs)@ =~= header_step(old(hs)@, line@),
{
    let t = trim_slice(line);
    if hs.stopped || t.len() == 0 || (t.len() >= 2 && t[0] == 47u8 && t[1] == 47u8) {
        return;
    }
    if t[0] == 91u8 && t[t.len() - 1] == 93u8 {
        let m = eq_ascii_ci(&t[1..t.len() - 1], METADATA.as_slice());
        hs.in_metadata = m;
        hs.stopped = !m && hs.creator.len() > 0 && hs.version.len() > 0;
        return;
    }
    if hs.in_metadata {
        if let Some((k, v)) = split_key_value(t) {
            if eq_ascii_ci(k, CREATOR.as_slice()) {
                hs.creator = copy_bytes(v);
            } else if eq_ascii_ci(k, VERSION.as_slice()) {
                hs.version = copy_bytes(v);
            }
        }
    }
}

/// Reads creator and version from the first bytes of a chart. A cut-off
/// last line is read like any other; what was found before it stays.
pub fn parse_header_creator_and_version(content: &[u8]) -> (r: (Vec<u8>, Vec<u8>))
    ensures
        (r.0@, r.1@) == header_of(content@),
{
    let mut hs = HeaderScan {
        in_metadata: false,
        creator: Vec::new(),
        version: Vec::new(),
        stopped: false,
    };
    assert(hs@ =~= header_initial());
    let n = content.len();
    let mut pos: usize = 0;
    loop
        invariant_except_break
            header_from(content@, 0, header_initial()) == header_from(content@, pos as int, hs@),
        invariant
            pos <= n,
            n == content@.len(),
        ensures
            header_from(content@, 0, header_initial()) == hs@,
        decreases n - pos,
    {
        let e = match find_byte_from(content, pos, 10u8) {
            Some(p) => p,
            None => n,
        };
        proof {
            lemma_find_byte_bound(content@, pos as int, 10u8);
        }
        let ghost before = hs@;
        header_line(&mut hs, &content[pos..e]);
        assert(header_from(content@, pos as int, before) == if e >= n {
            hs@
        } else {
            header_from(content@, e + 1, hs@)
        });
        if e >= n {
            break;
        }
        pos = e + 1;
    }
    (hs.creator, hs.version)
}

/// The header scan agrees with the full parse while it has not stopped.
pub open spec fn agrees(hs: HeaderModel, st: StateModel) -> bool {
    !hs.stopped ==> hs.creator == st.meta.creator && hs.version == st.meta.version && hs.in_metadata
        == (st.section == OsuSection::Metadata)
}

proof fn lemma_step_agrees(hs: HeaderModel, st: StateModel, line: Seq<u8>)
    requires
        agrees(hs, st),
    ensures
        agrees(header_step(hs, line), line_step(st, line)),
{
    reveal(line_step);
    let t = trim(line);
    if !hs.stopped && !(t.len() == 0 || is_comment(t)) && is_header(t) {
        let h = t.subrange(1, t.len() - 1);
        assert(METADATA@.len() == 8);
        assert((section_of(h) == OsuSection::Metadata) == eq_ci(h, METADATA@));
    }
    if !hs.stopped && !(t.len() == 0 || is_comment(t)) && !is_header(t) && hs.in_metadata {
        match key_value(t) {
            Some((k, v)) => {
                assert(CREATOR@.len() == 7);
                assert(VERSION@.len() == 7);
                assert(crate::keys::TITLE@.len() == 5);
                assert(crate::keys::ARTIST@.len() == 6);
                if eq_ci(k, CREATOR@) && eq_ci(k, VERSION@) {
                    assert(lower(k[0]) == lower(CREATOR@[0]));
                    assert(lower(k[0]) == lower(VERSION@[0]));
                }
            },
            None => {},
        }
    }
}

proof fn lemma_from_agrees(c: Seq<u8>, pos: int, hs: HeaderModel, st: StateModel)
    requires
        agrees(hs, st),
    ensures
        agrees(header_from(c, pos, hs), parse_from(c, pos, st)),
    decreases c.len() - pos,
{
    let e = match find_byte(c, pos, 10u8) {
        Some(p) => p,
        None => c.len() as int,
    };
    lemma_step_agrees(hs, st, c.subrange(pos, e));
    if !(e >= c.len() || e < pos) {
        lemma_from_agrees(
            c,
            e + 1,
            header_step(hs, c.subrange(pos, e)),
            line_step(st, c.subrange(pos, e)),
        );
    }
}

/// The header scan finds what the full parse finds: unless it stopped at a
/// section after `[Metadata]`, its creator and version are those of the last
/// `Creator` and `Version` lines in `[Metadata]`, the full parse's values
/// wherever those are non-empty.
pub proof fn lemma_header_matches_parse(c: Seq<u8>)
    ensures
        !header_from(c, 0, header_initial()).stopped ==> header_of(c) == (
            parse_from(c, 0, initial_state()).meta.creator,
            parse_from(c, 0, initial_state()).meta.version,
        ),
        !header_from(c, 0, header_initial()).stopped && header_of(c).0.len() > 0
            ==> chart_of(c).metadata.creator == header_of(c).0,
        !header_from(c, 0, header_initial()).stopped && header_of(c).1.len() > 0
            ==> chart_of(c).metadata.version == header_of(c).1,
{
    lemma_from_agrees(c, 0, header_initial(), initial_state());
}

/// Whether a line is a `[Metadata]` header.
pub open spec fn is_metadata_header(line: Seq<u8>) -> bool {
    let t = trim(line);
    t.len() > 0 && !is_comment(t) && is_header(t) && eq_ci(t.subrange(1, t.len() - 1), METADATA@)
}

/// The number of `[Metadata]` header lines from `pos` on.
pub open spec fn metadata_headers(c: Seq<u8>, pos: int) -> nat
    decreases c.len() - pos,
{
    let e = match find_byte(c, pos, 10u8) {
        Some(p) => p,
        None => c.len() as int,
    };
    let here: nat = if is_metadata_header(c.subrange(pos, e)) {
        1
    } else {
        0
    };
    if e >= c.len() || e < pos {
        here
    } else {
        here + metadata_headers(c, e + 1)
    }
}

/// The relation between the two scans when at most one `[Metadata]` header
/// occurs, `k` of the `total` still ahead.
pub open spec fn agrees_single(hs: HeaderModel, st: StateModel, k: nat, total: nat) -> bool {
    &&& agrees(hs, st)
    &&& k <= total
    &&& (hs.in_metadata || hs.creator.len() > 0 || hs.version.len() > 0) ==> k < total
    &&& hs.stopped ==> hs.creator.len() > 0 && hs.version.len() > 0
    &&& hs.stopped && k == 0 ==> hs.creator == st.meta.creator && hs.version == st.meta.version
        && st.section != OsuSection::Metadata
}

proof fn lemma_step_single(hs: HeaderModel, st: StateModel, line: Seq<u8>, k: nat, total: nat)
    requires
        total <= 1,
        agrees_single(
            hs,
            st,
            k + if is_metadata_header(line) {
                1nat
            } else {
                0nat
            },
            total,
        ),
    ensures
        agrees_single(header_step(hs, line), line_step(st, line), k, total),
{
    lemma_step_agrees(hs, st, line);
    reveal(line_step);
    let t = trim(line);
    if !(t.len() == 0 || is_comment(t)) && is_header(t) {
        let h = t.subrange(1, t.len() - 1);
        assert(METADATA@.len() == 8);
        assert((section_of(h) == OsuSection::Metadata) == eq_ci(h, METADATA@));
    }
}

proof fn lemma_from_single(c: Seq<u8>, pos: int, hs: HeaderModel, st: StateModel, total: nat)
    requires
        total <= 1,
        agrees_single(hs, st, metadata_headers(c, pos), total),
    ensures
        agrees_single(header_from(c, pos, hs), parse_from(c, pos, st), 0, total),
    decreases c.len() - pos,
{
    let e = match find_byte(c, pos, 10u8) {
        Some(p) => p,
        None => c.len() as int,
    };
    let line = c.subrange(pos, e);
    if e >= c.len() || e < pos {
        lemma_step_single(hs, st, line, 0, total);
    } else {
        lemma_step_single(hs, st, line, metadata_headers(c, e + 1), total);
        lemma_from_single(c, e + 1, header_step(hs, line), line_step(st, line), total);
    }
}

/// With at most one `[Metadata]` header, the header scan gives exactly the
/// creator and version of the full parse (before placeholders), early stop
/// included; non-empty values equal the parsed chart's.
pub proof fn lemma_header_matches_parse_single_metadata(c: Seq<u8>)
    requires
        metadata_headers(c, 0) <= 1,
    ensures
        header_of(c) == (
            parse_from(c, 0, initial_state()).meta.creator,
            parse_from(c, 0, initial_state()).meta.version,
        ),
        header_of(c).0.len() > 0 ==> chart_of(c).metadata.creator == header_of(c).0,
        header_of(c).1.len() > 0 ==> chart_of(c).metadata.version == header_of(c).1,
{
    let total = metadata_headers(c, 0);
    lemma_from_single(c, 0, header_initial(), initial_state(), total);
}

} // verus!
