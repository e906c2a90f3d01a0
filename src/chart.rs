//! The single-pass chart parser: sections, key/value lines, timing points,
//! events, bookmarks and hit objects with their end times.
use vstd::prelude::*;
use crate::keys::{
    ARTIST, AUDIO_FILENAME, BEATMAP_SET_ID, BOOKMARKS, BREAK, CREATOR, DIFFICULTY, EDITOR, EVENTS,
    GENERAL, HIT_OBJECTS, METADATA, MODE, PREVIEW_TIME, SET_URL, SLIDER_MULTIPLIER, TIMING_POINTS,
    TITLE, UNKNOWN, UNKNOWN_ARTIST, UNKNOWN_CREATOR, UNKNOWN_TITLE, UNKNOWN_VERSION, VERSION,
};
use crate::number::{decimal, lemma_micros_range, micros_or, parse_micros_or, push_decimal, MICRO};
use crate::text::{
    csv_field, csv_field_count, field_start, memchr_comma, eq_ascii_ci, eq_ci, field, field_count, find_byte, find_byte_from,
    int_or, int_value, lemma_find_byte_bound, parse_i32, parse_i32_or, trim, trim_slice,
};

verus! {

/// The section that the parser is in.
#[derive(Clone, Copy, Debug, PartialEq, Eq, Structural)]
pub enum OsuSection {
    Unset,
    General,
    Editor,
    Metadata,
    Difficulty,
    Events,
    TimingPoints,
    HitObjects,
    Other,
}

/// The section that a header names; unknown names give `Other`.
pub open spec fn section_of(h: Seq<u8>) -> OsuSection {
    if eq_ci(h, GENERAL@) {
        OsuSection::General
    } else if eq_ci(h, EDITOR@) {
        OsuSection::Editor
    } else if eq_ci(h, METADATA@) {
        OsuSection::Metadata
    } else if eq_ci(h, DIFFICULTY@) {
        OsuSection::Difficulty
    } else if eq_ci(h, EVENTS@) {
        OsuSection::Events
    } else if eq_ci(h, TIMING_POINTS@) {
        OsuSection::TimingPoints
    } else if eq_ci(h, HIT_OBJECTS@) {
        OsuSection::HitObjects
    } else {
        OsuSection::Other
    }
}

impl OsuSection {
    /// The section named by `header`, the text between `[` and `]`.
    pub fn from_header(header: &[u8]) -> (r: OsuSection)
        ensures
            r == section_of(header@),
    {
        if eq_ascii_ci(header, GENERAL.as_slice()) {
            OsuSection::General
        } else if eq_ascii_ci(header, EDITOR.as_slice()) {
            OsuSection::Editor
        } else if eq_ascii_ci(header, METADATA.as_slice()) {
            OsuSection::Metadata
        } else if eq_ascii_ci(header, DIFFICULTY.as_slice()) {
            OsuSection::Difficulty
        } else if eq_ascii_ci(header, EVENTS.as_slice()) {
            OsuSection::Events
        } else if eq_ascii_ci(header, TIMING_POINTS.as_slice()) {
            OsuSection::TimingPoints
        } else if eq_ascii_ci(header, HIT_OBJECTS.as_slice()) {
            OsuSection::HitObjects
        } else {
            OsuSection::Other
        }
    }
}

/// Whether the (trimmed, non-empty) line is a `//` comment.
pub open spec fn is_comment(t: Seq<u8>) -> bool {
    t.len() >= 2 && t[0] == 47u8 && t[1] == 47u8
}

/// Whether the (trimmed, non-empty) line is a `[Section]` header.
pub open spec fn is_header(t: Seq<u8>) -> bool {
    t.len() > 0 && t[0] == 91u8 && t.last() == 93u8
}

/// A `key: value` line split at its first colon, both sides trimmed.
pub open spec fn key_value(t: Seq<u8>) -> Option<(Seq<u8>, Seq<u8>)> {
    match find_byte(t, 0, 58u8) {
        Some(p) => Some((trim(t.subrange(0, p)), trim(t.subrange(p + 1, t.len() as int)))),
        None => None,
    }
}

/// Splits a `key: value` line at its first colon and trims both sides.
pub fn split_key_value(t: &[u8]) -> (r: Option<(&[u8], &[u8])>)
    ensures
        match r {
            Some((k, v)) => key_value(t@) == Some((k@, v@)) && k@.len() <= t@.len() && v@.len()
                <= t@.len(),
            None => key_value(t@) is None,
        },
{
    let n = t.len();
    match find_byte_from(t, 0, 58u8) {
        Some(p) => {
            proof {
                lemma_find_byte_bound(t@, 0, 58u8);
            }
            let k = trim_slice(&t[0..p]);
            let v = trim_slice(&t[p + 1..n]);
            Some((k, v))
        },
        None => None,
    }
}

/// Whether `s` ends in `ext`, up to ASCII case.
pub open spec fn ends_with_ci(s: Seq<u8>, ext: Seq<u8>) -> bool {
    s.len() >= ext.len() && eq_ci(s.subrange(s.len() - ext.len(), s.len() as int), ext)
}

/// A file name of an image: it ends in `.jpg`, `.jpeg`, `.png`, `.gif`,
/// `.bmp` or `.webp`, in any case.
pub open spec fn has_image_ext(s: Seq<u8>) -> bool {
    ends_with_ci(s, seq![46u8, 106u8, 112u8, 103u8]) || ends_with_ci(
        s,
        seq![46u8, 106u8, 112u8, 101u8, 103u8],
    ) || ends_with_ci(s, seq![46u8, 112u8, 110u8, 103u8]) || ends_with_ci(
        s,
        seq![46u8, 103u8, 105u8, 102u8],
    ) || ends_with_ci(s, seq![46u8, 98u8, 109u8, 112u8]) || ends_with_ci(
        s,
        seq![46u8, 119u8, 101u8, 98u8, 112u8],
    )
}

const EXT_JPG: [u8; 4] = [46, 106, 112, 103];

const EXT_JPEG: [u8; 5] = [46, 106, 112, 101, 103];

const EXT_PNG: [u8; 4] = [46, 112, 110, 103];

const EXT_GIF: [u8; 4] = [46, 103, 105, 102];

const EXT_BMP: [u8; 4] = [46, 98, 109, 112];

const EXT_WEBP: [u8; 5] = [46, 119, 101, 98, 112];

fn ends_with_ascii_ci(s: &[u8], ext: &[u8]) -> (r: bool)
    ensures
        r == ends_with_ci(s@, ext@),
{
    if s.len() < ext.len() {
        return false;
    }
    eq_ascii_ci(&s[s.len() - ext.len()..s.len()], ext)
}

/// Check if a name ends with one of the image extensions (case-insensitive).
pub fn is_image_ext(s: &[u8]) -> (r: bool)
    ensures
        r == has_image_ext(s@),
{
    assert(EXT_JPG@ == seq![46u8, 106u8, 112u8, 103u8]);
    assert(EXT_JPEG@ == seq![46u8, 106u8, 112u8, 101u8, 103u8]);
    assert(EXT_PNG@ == seq![46u8, 112u8, 110u8, 103u8]);
    assert(EXT_GIF@ == seq![46u8, 103u8, 105u8, 102u8]);
    assert(EXT_BMP@ == seq![46u8, 98u8, 109u8, 112u8]);
    assert(EXT_WEBP@ == seq![46u8, 119u8, 101u8, 98u8, 112u8]);
    ends_with_ascii_ci(s, EXT_JPG.as_slice()) || ends_with_ascii_ci(s, EXT_JPEG.as_slice())
        || ends_with_ascii_ci(s, EXT_PNG.as_slice()) || ends_with_ascii_ci(s, EXT_GIF.as_slice())
        || ends_with_ascii_ci(s, EXT_BMP.as_slice()) || ends_with_ascii_ci(
        s,
        EXT_WEBP.as_slice(),
    )
}

pub open spec fn strip_quotes_left(s: Seq<u8>) -> Seq<u8>
    decreases s.len(),
{
    if s.len() > 0 && s[0] == 34u8 {
        strip_quotes_left(s.drop_first())
    } else {
        s
    }
}

pub open spec fn strip_quotes_right(s: Seq<u8>) -> Seq<u8>
    decreases s.len(),
{
    if s.len() > 0 && s.last() == 34u8 {
        strip_quotes_right(s.drop_last())
    } else {
        s
    }
}

/// The text without the double quotes at either end.
pub open spec fn strip_quotes(s: Seq<u8>) -> Seq<u8> {
    strip_quotes_right(strip_quotes_left(s))
}

proof fn lemma_strip_left(s: Seq<u8>, i: int)
    requires
        0 <= i <= s.len(),
        forall|j: int| 0 <= j < i ==> #[trigger] s[j] == 34u8,
    ensures
        strip_quotes_left(s) == strip_quotes_left(s.subrange(i, s.len() as int)),
    decreases i,
{
    if i > 0 {
        assert(s.drop_first() =~= s.subrange(1, s.len() as int));
        lemma_strip_left(s.drop_first(), i - 1);
        assert(s.drop_first().subrange(i - 1, s.drop_first().len() as int) =~= s.subrange(
            i,
            s.len() as int,
        ));
    } else {
        assert(s =~= s.subrange(0, s.len() as int));
    }
}

proof fn lemma_strip_right(s: Seq<u8>, k: int)
    requires
        0 <= k <= s.len(),
        forall|j: int| k <= j < s.len() ==> #[trigger] s[j] == 34u8,
    ensures
        strip_quotes_right(s) == strip_quotes_right(s.subrange(0, k)),
    decreases s.len() - k,
{
    if k < s.len() {
        assert(s.drop_last() =~= s.subrange(0, s.len() - 1));
        lemma_strip_right(s.drop_last(), k);
        assert(s.drop_last().subrange(0, k) =~= s.subrange(0, k));
    } else {
        assert(s =~= s.subrange(0, k));
    }
}

/// `s` without the double quotes at either end.
pub fn strip_quotes_slice(s: &[u8]) -> (r: &[u8])
    ensures
        r@ == strip_quotes(s@),
{
    let n = s.len();
    let mut lo: usize = 0;
    while lo < n && s[lo] == 34u8
        invariant
            lo <= n,
            n == s@.len(),
            forall|j: int| 0 <= j < lo ==> #[trigger] s@[j] == 34u8,
        decreases n - lo,
    {
        lo = lo + 1;
    }
    proof {
        lemma_strip_left(s@, lo as int);
    }
    let ghost t = s@.subrange(lo as int, n as int);
    assert(strip_quotes_left(t) == t);
    let mut hi: usize = n;
    while hi > lo && s[hi - 1] == 34u8
        invariant
            lo <= hi <= n,
            n == s@.len(),
            forall|j: int| hi <= j < n ==> #[trigger] s@[j] == 34u8,
        decreases hi,
    {
        hi = hi - 1;
    }
    proof {
        lemma_strip_right(t, hi - lo);
        assert(t.subrange(0, hi - lo) =~= s@.subrange(lo as int, hi as int));
        let u = s@.subrange(lo as int, hi as int);
        assert(strip_quotes_right(u) == u);
    }
    &s[lo..hi]
}

/// A copy of the bytes of `s`.
pub fn copy_bytes(s: &[u8]) -> (r: Vec<u8>)
    ensures
        r@ == s@,
{
    let mut r: Vec<u8> = Vec::new();
    let mut i: usize = 0;
    while i < s.len()
        invariant
            i <= s@.len(),
            r@ == s@.subrange(0, i as int),
        decreases s@.len() - i,
    {
        r.push(s[i]);
        i = i + 1;
        assert(r@ =~= s@.subrange(0, i as int));
    }
    assert(s@.subrange(0, s@.len() as int) =~= s@);
    r
}

/// A timing point; `beat_length` is in millionths of a millisecond.
#[derive(Clone, Copy, Debug, PartialEq, Eq, Structural)]
pub struct TimingPoint {
    pub time: i32,
    pub beat_length: i64,
    pub uninherited: bool,
}

/// A break period, in milliseconds.
#[derive(Clone, Copy, Debug, PartialEq, Eq, Structural)]
pub struct TimeRange {
    pub start: i32,
    pub end: i32,
}

/// The metadata of a chart, its texts as bytes.
#[derive(Clone, Debug)]
pub struct ChartMetadata {
    pub title: Vec<u8>,
    pub artist: Vec<u8>,
    pub creator: Vec<u8>,
    pub version: Vec<u8>,
    pub mode: i32,
    pub audio: Vec<u8>,
    pub background: Vec<u8>,
    pub beatmap_set_id: Vec<u8>,
    pub preview_time: i32,
}

/// The model of `ChartMetadata`.
#[verifier::ext_equal]
pub struct MetaModel {
    pub title: Seq<u8>,
    pub artist: Seq<u8>,
    pub creator: Seq<u8>,
    pub version: Seq<u8>,
    pub mode: i32,
    pub audio: Seq<u8>,
    pub background: Seq<u8>,
    pub beatmap_set_id: Seq<u8>,
    pub preview_time: i32,
}

impl View for ChartMetadata {
    type V = MetaModel;

    open spec fn view(&self) -> MetaModel {
        MetaModel {
            title: self.title@,
            artist: self.artist@,
            creator: self.creator@,
            version: self.version@,
            mode: self.mode,
            audio: self.audio@,
            background: self.background@,
            beatmap_set_id: self.beatmap_set_id@,
            preview_time: self.preview_time,
        }
    }
}

/// What the parser has gathered so far.
pub struct ParserState {
    pub section: OsuSection,
    pub meta: ChartMetadata,
    pub slider_multiplier: i64,
    pub timing: Vec<TimingPoint>,
    pub starts: Vec<i32>,
    pub ends: Vec<i32>,
    pub types: Vec<i32>,
    pub breaks: Vec<TimeRange>,
    pub bookmarks: Vec<i32>,
}

/// The model of `ParserState`.
#[verifier::ext_equal]
pub struct StateModel {
    pub section: OsuSection,
    pub meta: MetaModel,
    pub slider_multiplier: i64,
    pub timing: Seq<TimingPoint>,
    pub starts: Seq<i32>,
    pub ends: Seq<i32>,
    pub types: Seq<i32>,
    pub breaks: Seq<TimeRange>,
    pub bookmarks: Seq<i32>,
}

impl View for ParserState {
    type V = StateModel;

    open spec fn view(&self) -> StateModel {
        StateModel {
            section: self.section,
            meta: self.meta@,
            slider_multiplier: self.slider_multiplier,
            timing: self.timing@,
            starts: self.starts@,
            ends: self.ends@,
            types: self.types@,
            breaks: self.breaks@,
            bookmarks: self.bookmarks@,
        }
    }
}

/// The state before the first line: no section, empty texts, preview time
/// −1, slider multiplier 1.
pub open spec fn initial_state() -> StateModel {
    StateModel {
        section: OsuSection::Unset,
        meta: MetaModel {
            title: Seq::empty(),
            artist: Seq::empty(),
            creator: Seq::empty(),
            version: Seq::empty(),
            mode: 0,
            audio: Seq::empty(),
            background: Seq::empty(),
            beatmap_set_id: Seq::empty(),
            preview_time: -1i32,
        },
        slider_multiplier: MICRO as i64,
        timing: Seq::empty(),
        starts: Seq::empty(),
        ends: Seq::empty(),
        types: Seq::empty(),
        breaks: Seq::empty(),
        bookmarks: Seq::empty(),
    }
}

fn new_state() -> (r: ParserState)
    ensures
        r@ =~= initial_state(),
{
    ParserState {
        section: OsuSection::Unset,
        meta: ChartMetadata {
            title: Vec::new(),
            artist: Vec::new(),
            creator: Vec::new(),
            version: Vec::new(),
            mode: 0,
            audio: Vec::new(),
            background: Vec::new(),
            beatmap_set_id: Vec::new(),
            preview_time: -1,
        },
        slider_multiplier: MICRO,
        timing: Vec::new(),
        starts: Vec::new(),
        ends: Vec::new(),
        types: Vec::new(),
        breaks: Vec::new(),
        bookmarks: Vec::new(),
    }
}

/// The reference that a `BeatmapSetID` value gives: the canonical URL for a
/// positive numeric id, else the value itself.
pub open spec fn set_reference(v: Seq<u8>) -> Seq<u8> {
    match int_value(v) {
        Some(id) => if id > 0 {
            SET_URL@ + decimal(id as nat)
        } else {
            v
        },
        None => v,
    }
}

/// A line of the `[Metadata]` section.
pub open spec fn metadata_step(st: StateModel, t: Seq<u8>) -> StateModel {
    match key_value(t) {
        Some((k, v)) => {
            if eq_ci(k, TITLE@) {
                StateModel { meta: MetaModel { title: v, ..st.meta }, ..st }
            } else if eq_ci(k, ARTIST@) {
                StateModel { meta: MetaModel { artist: v, ..st.meta }, ..st }
            } else if eq_ci(k, CREATOR@) {
                StateModel { meta: MetaModel { creator: v, ..st.meta }, ..st }
            } else if eq_ci(k, VERSION@) {
                StateModel { meta: MetaModel { version: v, ..st.meta }, ..st }
            } else if eq_ci(k, BEATMAP_SET_ID@) {
                StateModel { meta: MetaModel { beatmap_set_id: set_reference(v), ..st.meta }, ..st }
            } else {
                st
            }
        },
        None => st,
    }
}

/// A line of the `[General]` section.
pub open spec fn general_step(st: StateModel, t: Seq<u8>) -> StateModel {
    match key_value(t) {
        Some((k, v)) => {
            if eq_ci(k, AUDIO_FILENAME@) {
                StateModel { meta: MetaModel { audio: v, ..st.meta }, ..st }
            } else if eq_ci(k, PREVIEW_TIME@) {
                match int_value(v) {
                    Some(x) => StateModel {
                        meta: MetaModel { preview_time: x as i32, ..st.meta },
                        ..st
                    },
                    None => st,
                }
            } else if eq_ci(k, MODE@) {
                match int_value(v) {
                    Some(x) => StateModel { meta: MetaModel { mode: x as i32, ..st.meta }, ..st },
                    None => st,
                }
            } else {
                st
            }
        },
        None => st,
    }
}

/// A line of the `[Difficulty]` section.
pub open spec fn difficulty_step(st: StateModel, t: Seq<u8>) -> StateModel {
    match key_value(t) {
        Some((k, v)) => {
            if eq_ci(k, SLIDER_MULTIPLIER@) {
                StateModel { slider_multiplier: micros_or(v, MICRO as int) as i64, ..st }
            } else {
                st
            }
        },
        None => st,
    }
}

fn set_reference_exec(v: &[u8]) -> (r: Vec<u8>)
    ensures
        r@ == set_reference(v@),
{
    match parse_i32(v) {
        Some(id) => {
            if id > 0 {
                let mut out = copy_bytes(SET_URL.as_slice());
                push_decimal(&mut out, id as u32);
                out
            } else {
                copy_bytes(v)
            }
        },
        None => copy_bytes(v),
    }
}

fn metadata_line(st: &mut ParserState, t: &[u8])
    ensures
        final(st)@ =~= metadata_step(old(st)@, t@),
{
    if let Some((k, v)) = split_key_value(t) {
        if eq_ascii_ci(k, TITLE.as_slice()) {
            st.meta.title = copy_bytes(v);
        } else if eq_ascii_ci(k, ARTIST.as_slice()) {
            st.meta.artist = copy_bytes(v);
        } else if eq_ascii_ci(k, CREATOR.as_slice()) {
            st.meta.creator = copy_bytes(v);
        } else if eq_ascii_ci(k, VERSION.as_slice()) {
            st.meta.version = copy_bytes(v);
        } else if eq_ascii_ci(k, BEATMAP_SET_ID.as_slice()) {
            st.meta.beatmap_set_id = set_reference_exec(v);
        }
    }
}

fn general_line(st: &mut ParserState, t: &[u8])
    ensures
        final(st)@ =~= general_step(old(st)@, t@),
{
    if let Some((k, v)) = split_key_value(t) {
        if eq_ascii_ci(k, AUDIO_FILENAME.as_slice()) {
            st.meta.audio = copy_bytes(v);
        } else if eq_ascii_ci(k, PREVIEW_TIME.as_slice()) {
            if let Some(x) = parse_i32(v) {
                st.meta.preview_time = x;
            }
        } else if eq_ascii_ci(k, MODE.as_slice()) {
            if let Some(x) = parse_i32(v) {
                st.meta.mode = x;
            }
        }
    }
}

fn difficulty_line(st: &mut ParserState, t: &[u8])
    ensures
        final(st)@ =~= difficulty_step(old(st)@, t@),
{
    if let Some((k, v)) = split_key_value(t) {
        if eq_ascii_ci(k, SLIDER_MULTIPLIER.as_slice()) {
            st.slider_multiplier = parse_micros_or(v, MICRO);
        }
    }
}

/// The `n`th field, trimmed, read as an integer, or `d`.
pub open spec fn field_int(t: Seq<u8>, n: nat, d: int) -> int {
    match field(t, n) {
        Some(f) => int_or(trim(f), d),
        None => d,
    }
}

/// The `n`th field, trimmed, read as a decimal in millionths, or `d`.
pub open spec fn field_micros(t: Seq<u8>, n: nat, d: int) -> int {
    match field(t, n) {
        Some(f) => micros_or(trim(f), d),
        None => d,
    }
}

/// The `n`th field, trimmed, or nothing.
pub open spec fn field_text(t: Seq<u8>, n: nat) -> Seq<u8> {
    match field(t, n) {
        Some(f) => trim(f),
        None => Seq::empty(),
    }
}

fn field_i32(t: &[u8], n: usize, d: i32) -> (r: i32)
    ensures
        r as int == field_int(t@, n as nat, d as int),
{
    match csv_field(t, n) {
        Some(f) => parse_i32_or(trim_slice(f), d),
        None => d,
    }
}

fn field_micros_exec(t: &[u8], n: usize, d: i64) -> (r: i64)
    ensures
        r as int == field_micros(t@, n as nat, d as int),
{
    match csv_field(t, n) {
        Some(f) => parse_micros_or(trim_slice(f), d),
        None => d,
    }
}

fn field_text_exec(t: &[u8], n: usize) -> (r: &[u8])
    ensures
        r@ == field_text(t@, n as nat),
{
    match csv_field(t, n) {
        Some(f) => trim_slice(f),
        None => {
            let e: &[u8] = &t[0..0];
            e
        },
    }
}

/// A line of the `[TimingPoints]` section: time, beat length and, from the
/// seventh field, whether the point is uninherited (`1`).
pub open spec fn timing_step(st: StateModel, t: Seq<u8>) -> StateModel {
    let fc = field_count(t);
    if fc >= 2 {
        let tp = TimingPoint {
            time: field_int(t, 0, 0) as i32,
            beat_length: field_micros(t, 1, 500 * MICRO) as i64,
            uninherited: if fc >= 7 {
                field_text(t, 6) == seq![49u8]
            } else {
                true
            },
        };
        StateModel { timing: st.timing.push(tp), ..st }
    } else {
        st
    }
}

fn timing_line(st: &mut ParserState, t: &[u8])
    ensures
        final(st)@ =~= timing_step(old(st)@, t@),
{
    let fc = csv_field_count(t);
    if fc >= 2 {
        let time = field_i32(t, 0, 0);
        let beat_length = field_micros_exec(t, 1, 500 * MICRO);
        let uninherited = if fc >= 7 {
            let f = field_text_exec(t, 6);
            f.len() == 1 && f[0] == 49u8
        } else {
            true
        };
        proof {
            if fc >= 7 {
                let f = field_text(t@, 6);
                if f.len() == 1 && f[0] == 49u8 {
                    assert(f =~= seq![49u8]);
                }
            }
        }
        st.timing.push(TimingPoint { time, beat_length, uninherited });
    }
}

/// A line of the `[Events]` section: a break (`2` or `Break`) kept when
/// `0 <= start < end`, and the first background image (`0`).
pub open spec fn events_step(st: StateModel, t: Seq<u8>) -> StateModel {
    if field_count(t) >= 3 {
        let f0 = field_text(t, 0);
        let st1 = if f0 == seq![50u8] || eq_ci(f0, BREAK@) {
            let s = field_int(t, 1, -1);
            let e = field_int(t, 2, -1);
            if s >= 0 && e > s {
                StateModel {
                    breaks: st.breaks.push(TimeRange { start: s as i32, end: e as i32 }),
                    ..st
                }
            } else {
                st
            }
        } else {
            st
        };
        if f0 == seq![48u8] && st1.meta.background.len() == 0 {
            let cand = strip_quotes(field_text(t, 2));
            if has_image_ext(cand) {
                StateModel { meta: MetaModel { background: cand, ..st1.meta }, ..st1 }
            } else {
                st1
            }
        } else {
            st1
        }
    } else {
        st
    }
}

fn events_line(st: &mut ParserState, t: &[u8])
    ensures
        final(st)@ =~= events_step(old(st)@, t@),
{
    if csv_field_count(t) >= 3 {
        let f0 = field_text_exec(t, 0);
        proof {
            if f0@.len() == 1 && f0@[0] == 50u8 {
                assert(f0@ =~= seq![50u8]);
            }
            if f0@.len() == 1 && f0@[0] == 48u8 {
                assert(f0@ =~= seq![48u8]);
            }
        }
        if (f0.len() == 1 && f0[0] == 50u8) || eq_ascii_ci(f0, BREAK.as_slice()) {
            let s = field_i32(t, 1, -1);
            let e = field_i32(t, 2, -1);
            if s >= 0 && e > s {
                st.breaks.push(TimeRange { start: s, end: e });
            }
        }
        if f0.len() == 1 && f0[0] == 48u8 && st.meta.background.len() == 0 {
            let cand = strip_quotes_slice(field_text_exec(t, 2));
            if is_image_ext(cand) {
                st.meta.background = copy_bytes(cand);
            }
        }
    }
}

/// The integers among the first `k` fields of `v`, in order; fields that do
/// not read as integers are left out.
pub open spec fn field_ints(v: Seq<u8>, k: nat) -> Seq<i32>
    decreases k,
{
    if k == 0 {
        Seq::empty()
    } else {
        let prev = field_ints(v, (k - 1) as nat);
        match field(v, (k - 1) as nat) {
            Some(f) => match int_value(trim(f)) {
                Some(x) => prev.push(x as i32),
                None => prev,
            },
            None => prev,
        }
    }
}

/// A line of the `[Editor]` section: the bookmark list.
pub open spec fn editor_step(st: StateModel, t: Seq<u8>) -> StateModel {
    match key_value(t) {
        Some((k, v)) => {
            if eq_ci(k, BOOKMARKS@) {
                StateModel { bookmarks: field_ints(v, field_count(v)), ..st }
            } else {
                st
            }
        },
        None => st,
    }
}

fn parse_int_list(v: &[u8]) -> (r: Vec<i32>)
    ensures
        r@ == field_ints(v@, field_count(v@)),
{
    let mut out: Vec<i32> = Vec::new();
    let n = v.len();
    if n == 0 {
        return out;
    }
    let mut start: usize = 0;
    let mut k: usize = 0;
    loop
        invariant_except_break
            field_start(v@, k as nat) == Some(start as int),
            out@ == field_ints(v@, k as nat),
            k <= start <= n,
        invariant
            n == v@.len(),
            n > 0,
        ensures
            out@ == field_ints(v@, field_count(v@)),
        decreases n - start,
    {
        let next = memchr_comma(v, start);
        proof {
            lemma_find_byte_bound(v@, start as int, 44u8);
        }
        let end = match next {
            Some(p) => p,
            None => n,
        };
        let f = &v[start..end];
        assert(field(v@, k as nat) == Some(f@));
        match parse_i32(trim_slice(f)) {
            Some(x) => {
                out.push(x);
            },
            None => {},
        }
        assert(out@ == field_ints(v@, (k + 1) as nat));
        match next {
            Some(p) => {
                assert(field_start(v@, (k + 1) as nat) == Some(p + 1));
                start = p + 1;
                k = k + 1;
            },
            None => {
                proof {
                    crate::text::lemma_last_field(v@, k as nat, start as int);
                }
                break;
            },
        }
    }
    out
}

fn editor_line(st: &mut ParserState, t: &[u8])
    ensures
        final(st)@ =~= editor_step(old(st)@, t@),
{
    if let Some((k, v)) = split_key_value(t) {
        if eq_ascii_ci(k, BOOKMARKS.as_slice()) {
            st.bookmarks = parse_int_list(v);
        }
    }
}

/// The tempo in force at time `t`: timing points are read in file order up
/// to the first one later than `t`. An uninherited point sets the beat length
/// and clears the speed change; an inherited one with a negative value sets
/// it. Returns the beat length and that negative value, if any.
pub open spec fn tempo_scan(tps: Seq<TimingPoint>, i: int, t: int, beat: int, inh: Option<int>) -> (
    int,
    Option<int>,
)
    decreases tps.len() - i,
{
    if i < 0 || i >= tps.len() {
        (beat, inh)
    } else if tps[i].time > t {
        (beat, inh)
    } else if tps[i].uninherited {
        tempo_scan(tps, i + 1, t, tps[i].beat_length as int, None)
    } else if tps[i].beat_length < 0 {
        tempo_scan(tps, i + 1, t, beat, Some(tps[i].beat_length as int))
    } else {
        tempo_scan(tps, i + 1, t, beat, inh)
    }
}

/// The tempo at `t`, from a beat of 500 ms and no speed change.
pub open spec fn tempo_at(tps: Seq<TimingPoint>, t: int) -> (int, Option<int>) {
    tempo_scan(tps, 0, t, 500 * MICRO, None)
}

pub open spec fn abs(x: int) -> int {
    if x < 0 {
        -x
    } else {
        x
    }
}

/// `floor(max(0, n / d))`, and 0 where `d` is 0.
pub open spec fn floor_ratio(n: int, d: int) -> int {
    if d == 0 || n == 0 || (n > 0) != (d > 0) {
        0
    } else {
        abs(n) / abs(d)
    }
}

/// Numerator of a slider's duration, all values in millionths:
/// `length * beat * slides`, times `-inh` under a speed change.
pub open spec fn slider_numer(length: int, beat: int, slides: int, inh: Option<int>) -> int {
    length * beat * slides * match inh {
        Some(i) => -i,
        None => 1,
    }
}

/// Denominator of a slider's duration: `multiplier * 100 * 100 / inh` in the
/// same units.
pub open spec fn slider_denom(mult: int, inh: Option<int>) -> int {
    mult * match inh {
        Some(_) => 10000000000000000000000int,
        None => 100000000000000int,
    }
}

/// A slider's duration in whole milliseconds:
/// `floor(max(0, length / (multiplier * 100 * speed) * beat * slides))`,
/// with speed `-100 / inh` under a speed change and 1 otherwise. A duration
/// whose numerator leaves the range of `i128` counts as 0.
pub open spec fn slider_duration(length: int, beat: int, slides: int, inh: Option<int>, mult: int) -> int {
    let n = slider_numer(length, beat, slides, inh);
    if abs(n) > i128::MAX {
        0
    } else {
        floor_ratio(n, slider_denom(mult, inh))
    }
}

/// The end of a slider that starts at `start`, at most `i32::MAX`.
pub open spec fn slider_end(start: int, slides: int, length: int, tps: Seq<TimingPoint>, mult: int) -> int {
    let (beat, inh) = tempo_at(tps, start);
    let d = slider_duration(length, beat, slides, inh, mult);
    if start + d > i32::MAX {
        i32::MAX as int
    } else {
        start + d
    }
}

/// Bound on the magnitude of every decimal the parser reads.
pub open spec fn in_micro_range(x: int) -> bool {
    -1000000000000000 < x < 1000000000000000
}

/// The parser's invariant: aligned hit object sequences and decimals in range.
pub open spec fn state_wf(st: StateModel) -> bool {
    &&& st.starts.len() == st.ends.len()
    &&& st.types.len() == st.ends.len()
    &&& in_micro_range(st.slider_multiplier as int)
    &&& forall|i: int| 0 <= i < st.timing.len() ==> in_micro_range(#[trigger] st.timing[i].beat_length as int)
}

proof fn lemma_mul_bound(x: int, y: int, bx: int, by: int)
    requires
        -bx < x < bx,
        0 < y <= by,
    ensures
        -(bx * by) < x * y < bx * by,
{
    assert(-(bx * by) < x * y < bx * by) by (nonlinear_arith)
        requires
            -bx < x < bx,
            0 < y <= by,
    ;
}

proof fn lemma_abs_mul_ge(x: int, y: int)
    requires
        y != 0,
    ensures
        abs(x * y) >= abs(x),
{
    assert(abs(x * y) == abs(x) * abs(y)) by (nonlinear_arith);
    assert(abs(x) * abs(y) >= abs(x)) by (nonlinear_arith)
        requires
            abs(y) >= 1,
            abs(x) >= 0,
    ;
}

proof fn lemma_tempo_range(tps: Seq<TimingPoint>, i: int, t: int, beat: int, inh: Option<int>)
    requires
        in_micro_range(beat),
        inh matches Some(v) ==> in_micro_range(v) && v < 0,
        forall|j: int| 0 <= j < tps.len() ==> in_micro_range(#[trigger] tps[j].beat_length as int),
    ensures
        in_micro_range(tempo_scan(tps, i, t, beat, inh).0),
        tempo_scan(tps, i, t, beat, inh).1 matches Some(v) ==> in_micro_range(v) && v < 0,
    decreases tps.len() - i,
{
    if 0 <= i < tps.len() && tps[i].time <= t {
        if tps[i].uninherited {
            lemma_tempo_range(tps, i + 1, t, tps[i].beat_length as int, None);
        } else if tps[i].beat_length < 0 {
            lemma_tempo_range(tps, i + 1, t, beat, Some(tps[i].beat_length as int));
        } else {
            lemma_tempo_range(tps, i + 1, t, beat, inh);
        }
    }
}

fn slider_duration_exec(length: i64, beat: i64, slides: i64, inh: Option<i64>, mult: i64) -> (r: i128)
    requires
        in_micro_range(length as int),
        in_micro_range(beat as int),
        in_micro_range(slides as int),
        in_micro_range(mult as int),
        inh matches Some(v) ==> in_micro_range(v as int) && v < 0,
    ensures
        r as int == slider_duration(
            length as int,
            beat as int,
            slides as int,
            match inh {
                Some(v) => Some(v as int),
                None => None,
            },
            mult as int,
        ),
        r >= 0,
{
    let ghost ginh = match inh {
        Some(v) => Some(v as int),
        None => None::<int>,
    };
    let f: i128 = match inh {
        Some(v) => -(v as i128),
        None => 1,
    };
    let scale: i128 = match inh {
        Some(_) => 10000000000000000000000,
        None => 100000000000000,
    };
    proof {
        lemma_mul_bound(mult as int, scale as int, 1000000000000000, 10000000000000000000000);
    }
    let den: i128 = mult as i128 * scale;
    assert(den as int == slider_denom(mult as int, ginh));
    let ghost n = slider_numer(length as int, beat as int, slides as int, ginh);
    if length == 0 || beat == 0 || slides == 0 || f == 0 {
        assert(n == 0) by (nonlinear_arith)
            requires
                n == length as int * beat as int * slides as int * f as int,
                length == 0 || beat == 0 || slides == 0 || f == 0,
        ;
        return 0;
    }
    assert(-1000000000000000000000000000000int < (length as int) * (beat as int)
        < 1000000000000000000000000000000int) by (nonlinear_arith)
        requires
            -1000000000000000 < length < 1000000000000000,
            -1000000000000000 < beat < 1000000000000000,
    ;
    let a: i128 = length as i128 * beat as i128;
    let b: i128 = match a.checked_mul(slides as i128) {
        Some(b) => b,
        None => {
            proof {
                lemma_abs_mul_ge(a as int * slides as int, f as int);
            }
            return 0;
        },
    };
    let c: i128 = match b.checked_mul(f) {
        Some(c) => c,
        None => {
            return 0;
        },
    };
    assert(c as int == n);
    if c == i128::MIN {
        return 0;
    }
    if den == 0 || (c > 0) != (den > 0) {
        return 0;
    }
    let an: i128 = if c < 0 { -c } else { c };
    let ad: i128 = if den < 0 { -den } else { den };
    an / ad
}

fn tempo_at_exec(tps: &Vec<TimingPoint>, t: i32) -> (r: (i64, Option<i64>))
    requires
        forall|j: int| 0 <= j < tps@.len() ==> in_micro_range(#[trigger] tps@[j].beat_length as int),
    ensures
        (r.0 as int, match r.1 {
            Some(v) => Some(v as int),
            None => None::<int>,
        }) == tempo_at(tps@, t as int),
        in_micro_range(r.0 as int),
        r.1 matches Some(v) ==> in_micro_range(v as int) && v < 0,
{
    let mut beat: i64 = 500 * MICRO;
    let mut inh: Option<i64> = None;
    let mut i: usize = 0;
    while i < tps.len() && tps[i].time <= t
        invariant
            i <= tps@.len(),
            forall|j: int| 0 <= j < tps@.len() ==> in_micro_range(#[trigger] tps@[j].beat_length as int),
            in_micro_range(beat as int),
            inh matches Some(v) ==> in_micro_range(v as int) && v < 0,
            tempo_at(tps@, t as int) == tempo_scan(tps@, i as int, t as int, beat as int, match inh {
                Some(v) => Some(v as int),
                None => None::<int>,
            }),
        decreases tps@.len() - i,
    {
        let p = tps[i];
        if p.uninherited {
            beat = p.beat_length;
            inh = None;
        } else if p.beat_length < 0 {
            inh = Some(p.beat_length);
        }
        i = i + 1;
    }
    (beat, inh)
}

fn slider_end_exec(start: i32, slides: i64, length: i64, tps: &Vec<TimingPoint>, mult: i64) -> (r: i32)
    requires
        forall|j: int| 0 <= j < tps@.len() ==> in_micro_range(#[trigger] tps@[j].beat_length as int),
        in_micro_range(slides as int),
        in_micro_range(length as int),
        in_micro_range(mult as int),
    ensures
        r as int == slider_end(start as int, slides as int, length as int, tps@, mult as int),
{
    let (beat, inh) = tempo_at_exec(tps, start);
    let d = slider_duration_exec(length, beat, slides, inh, mult);
    if d > 4294967296 {
        return i32::MAX;
    }
    let e: i64 = start as i64 + d as i64;
    if e > i32::MAX as i64 {
        i32::MAX
    } else {
        e as i32
    }
}

/// The end of a mania hold: the part of the sixth field before its first
/// colon, or `start`.
pub open spec fn hold_end(t: Seq<u8>, start: int) -> int {
    let f = match field(t, 5) {
        Some(f) => f,
        None => Seq::empty(),
    };
    let b = match find_byte(f, 0, 58u8) {
        Some(p) => f.subrange(0, p),
        None => f,
    };
    int_or(trim(b), start)
}

/// The end time that a hit object's own fields give, before it is raised
/// to at least its start.
pub open spec fn raw_end(st: StateModel, t: Seq<u8>, fc: nat, start: i32, ty: i32) -> int {
    if ty & 2 != 0 {
        if fc >= 8 {
            slider_end(
                start as int,
                field_micros(t, 6, MICRO as int),
                field_micros(t, 7, 0),
                st.timing,
                st.slider_multiplier as int,
            )
        } else {
            start as int
        }
    } else if ty & 8 != 0 {
        if fc >= 6 {
            field_int(t, 5, start as int)
        } else {
            start as int
        }
    } else if ty & 128 != 0 {
        if fc >= 6 {
            hold_end(t, start as int)
        } else {
            start as int
        }
    } else {
        start as int
    }
}

/// A line of the `[HitObjects]` section. A slider just before this object
/// is extended to this object's start; this object's end is at least its
/// start.
pub open spec fn hit_step(st: StateModel, t: Seq<u8>) -> StateModel {
    let fc = field_count(t);
    if fc < 4 {
        st
    } else {
        let start = field_int(t, 2, 0) as i32;
        let ty = field_int(t, 3, 0) as i32;
        let e = raw_end(st, t, fc, start, ty);
        let n = st.ends.len();
        let ends = if st.types.len() > 0 && st.types.last() & 2 != 0 && n > 0 && st.ends[n - 1]
            < start {
            st.ends.update(n - 1, start)
        } else {
            st.ends
        };
        StateModel {
            starts: st.starts.push(start),
            ends: ends.push(
                if e < start {
                    start
                } else {
                    e as i32
                },
            ),
            types: st.types.push(ty),
            ..st
        }
    }
}

fn field_micros_ranged(t: &[u8], n: usize, d: i64) -> (r: i64)
    requires
        in_micro_range(d as int),
    ensures
        r as int == field_micros(t@, n as nat, d as int),
        in_micro_range(r as int),
{
    let r = field_micros_exec(t, n, d);
    proof {
        match field(t@, n as nat) {
            Some(f) => lemma_micros_range(trim(f)),
            None => {},
        }
    }
    r
}

fn hold_end_exec(t: &[u8], start: i32) -> (r: i32)
    ensures
        r as int == hold_end(t@, start as int),
{
    let f: &[u8] = match csv_field(t, 5) {
        Some(f) => f,
        None => &t[0..0],
    };
    assert(t@.subrange(0, 0) =~= Seq::<u8>::empty());
    let fl = f.len();
    let b: &[u8] = match find_byte_from(f, 0, 58u8) {
        Some(p) => {
            proof {
                lemma_find_byte_bound(f@, 0, 58u8);
            }
            &f[0..p]
        },
        None => f,
    };
    assert(b@ == (match find_byte(f@, 0, 58u8) {
        Some(p) => f@.subrange(0, p),
        None => f@,
    }));
    assert(f@ == (match field(t@, 5) {
        Some(f) => f,
        None => Seq::empty(),
    }));
    parse_i32_or(trim_slice(b), start)
}

fn hit_line(st: &mut ParserState, t: &[u8])
    requires
        state_wf(old(st)@),
    ensures
        final(st)@ =~= hit_step(old(st)@, t@),
{
    let fc = csv_field_count(t);
    if fc < 4 {
        return;
    }
    let start = field_i32(t, 2, 0);
    let ty = field_i32(t, 3, 0);
    let e: i32 = if ty & 2 != 0 {
        if fc >= 8 {
            let slides = field_micros_ranged(t, 6, MICRO);
            let length = field_micros_ranged(t, 7, 0);
            slider_end_exec(start, slides, length, &st.timing, st.slider_multiplier)
        } else {
            start
        }
    } else if ty & 8 != 0 {
        if fc >= 6 {
            field_i32(t, 5, start)
        } else {
            start
        }
    } else if ty & 128 != 0 {
        if fc >= 6 {
            hold_end_exec(t, start)
        } else {
            start
        }
    } else {
        start
    };
    assert(e as int == raw_end(old(st)@, t@, field_count(t@), start, ty));
    let n = st.ends.len();
    if st.types.len() > 0 && st.types[st.types.len() - 1] & 2 != 0 && n > 0 && st.ends[n - 1]
        < start {
        st.ends.set(n - 1, start);
    }
    st.starts.push(start);
    st.ends.push(
        if e < start {
            start
        } else {
            e
        },
    );
    st.types.push(ty);
}

/// One line of the text. Blank lines and `//` comments are skipped; a
/// `[Header]` line switches the section; other lines go to the step of the
/// current section, and lines outside the known sections are ignored.
#[verifier::opaque]
pub open spec fn line_step(st: StateModel, line: Seq<u8>) -> StateModel {
    let t = trim(line);
    if t.len() == 0 || is_comment(t) {
        st
    } else if is_header(t) {
        StateModel { section: section_of(t.subrange(1, t.len() - 1)), ..st }
    } else {
        match st.section {
            OsuSection::Metadata => metadata_step(st, t),
            OsuSection::General => general_step(st, t),
            OsuSection::Difficulty => difficulty_step(st, t),
            OsuSection::TimingPoints => timing_step(st, t),
            OsuSection::Events => events_step(st, t),
            OsuSection::Editor => editor_step(st, t),
            OsuSection::HitObjects => hit_step(st, t),
            _ => st,
        }
    }
}

/// Lemma: each line step keeps the parser's invariant.
pub proof fn lemma_line_step_wf(st: StateModel, line: Seq<u8>)
    requires
        state_wf(st),
    ensures
        state_wf(line_step(st, line)),
{
    reveal(line_step);
    let t = trim(line);
    if !(t.len() == 0 || is_comment(t)) && !is_header(t) {
        match st.section {
            OsuSection::Difficulty => {
                match key_value(t) {
                    Some((k, v)) => lemma_micros_range(v),
                    None => {},
                }
            },
            OsuSection::TimingPoints => {
                match field(t, 1) {
                    Some(f) => lemma_micros_range(trim(f)),
                    None => {},
                }
                let st2 = timing_step(st, t);
                assert forall|i: int| 0 <= i < st2.timing.len() implies in_micro_range(
                    #[trigger] st2.timing[i].beat_length as int,
                ) by {
                    if i < st.timing.len() {
                        assert(st2.timing[i] == st.timing[i]);
                    }
                }
            },
            _ => {},
        }
    }
}

fn parse_line(st: &mut ParserState, line: &[u8])
    requires
        state_wf(old(st)@),
    ensures
        final(st)@ =~= line_step(old(st)@, line@),
        state_wf(final(st)@),
{
    proof {
        lemma_line_step_wf(old(st)@, line@);
        reveal(line_step);
    }
    let t = trim_slice(line);
    if t.len() == 0 || (t.len() >= 2 && t[0] == 47u8 && t[1] == 47u8) {
        return;
    }
    if t[0] == 91u8 && t[t.len() - 1] == 93u8 {
        st.section = OsuSection::from_header(&t[1..t.len() - 1]);
        return;
    }
    match st.section {
        OsuSection::Metadata => metadata_line(st, t),
        OsuSection::General => general_line(st, t),
        OsuSection::Difficulty => difficulty_line(st, t),
        OsuSection::TimingPoints => timing_line(st, t),
        OsuSection::Events => events_line(st, t),
        OsuSection::Editor => editor_line(st, t),
        OsuSection::HitObjects => hit_line(st, t),
        _ => {},
    }
}

/// The state after the lines of `c` from `pos` on; lines end at `\n`.
pub open spec fn parse_from(c: Seq<u8>, pos: int, st: StateModel) -> StateModel
    decreases c.len() - pos,
{
    let e = match find_byte(c, pos, 10u8) {
        Some(p) => p,
        None => c.len() as int,
    };
    let st2 = line_step(st, c.subrange(pos, e));
    if e >= c.len() || e < pos {
        st2
    } else {
        parse_from(c, e + 1, st2)
    }
}

/// The chart that a parse yields.
#[derive(Clone, Debug)]
pub struct ParsedChart {
    pub metadata: ChartMetadata,
    pub hit_starts: Vec<i32>,
    pub hit_ends: Vec<i32>,
    pub break_periods: Vec<TimeRange>,
    pub bookmarks: Vec<i32>,
}

/// The model of `ParsedChart`.
#[verifier::ext_equal]
pub struct ChartModel {
    pub metadata: MetaModel,
    pub hit_starts: Seq<i32>,
    pub hit_ends: Seq<i32>,
    pub break_periods: Seq<TimeRange>,
    pub bookmarks: Seq<i32>,
}

impl View for ParsedChart {
    type V = ChartModel;

    open spec fn view(&self) -> ChartModel {
        ChartModel {
            metadata: self.metadata@,
            hit_starts: self.hit_starts@,
            hit_ends: self.hit_ends@,
            break_periods: self.break_periods@,
            bookmarks: self.bookmarks@,
        }
    }
}

pub open spec fn or_placeholder(s: Seq<u8>, p: Seq<u8>) -> Seq<u8> {
    if s.len() == 0 {
        p
    } else {
        s
    }
}

pub open spec fn clamp_mode(m: i32) -> i32 {
    if m < 0 {
        0
    } else if m > 3 {
        3
    } else {
        m
    }
}

/// Empty texts take their placeholders and the mode is clamped to `0..=3`.
pub open spec fn normalize(m: MetaModel) -> MetaModel {
    MetaModel {
        title: or_placeholder(m.title, UNKNOWN_TITLE@),
        artist: or_placeholder(m.artist, UNKNOWN_ARTIST@),
        creator: or_placeholder(m.creator, UNKNOWN_CREATOR@),
        version: or_placeholder(m.version, UNKNOWN_VERSION@),
        beatmap_set_id: or_placeholder(m.beatmap_set_id, UNKNOWN@),
        mode: clamp_mode(m.mode),
        ..m
    }
}

/// The parse of the chart text `c`.
pub open spec fn chart_of(c: Seq<u8>) -> ChartModel {
    let st = parse_from(c, 0, initial_state());
    ChartModel {
        metadata: normalize(st.meta),
        hit_starts: st.starts,
        hit_ends: st.ends,
        break_periods: st.breaks,
        bookmarks: st.bookmarks,
    }
}

fn placeholder_if_empty(v: Vec<u8>, p: &[u8]) -> (r: Vec<u8>)
    ensures
        r@ == or_placeholder(v@, p@),
{
    if v.len() == 0 {
        copy_bytes(p)
    } else {
        v
    }
}

/// Fills empty texts with placeholders and clamps the mode to `0..=3`.
pub fn normalize_metadata(m: ChartMetadata) -> (r: ChartMetadata)
    ensures
        r@ =~= normalize(m@),
{
    let mode = if m.mode < 0 {
        0
    } else if m.mode > 3 {
        3
    } else {
        m.mode
    };
    ChartMetadata {
        title: placeholder_if_empty(m.title, UNKNOWN_TITLE.as_slice()),
        artist: placeholder_if_empty(m.artist, UNKNOWN_ARTIST.as_slice()),
        creator: placeholder_if_empty(m.creator, UNKNOWN_CREATOR.as_slice()),
        version: placeholder_if_empty(m.version, UNKNOWN_VERSION.as_slice()),
        mode,
        audio: m.audio,
        background: m.background,
        beatmap_set_id: placeholder_if_empty(m.beatmap_set_id, UNKNOWN.as_slice()),
        preview_time: m.preview_time,
    }
}

/// Parses chart text in one pass. Malformed lines and fields fall back to
/// defaults; the parse never fails.
pub fn parse_osu_content(content: &[u8]) -> (r: ParsedChart)
    ensures
        r@ =~= chart_of(content@),
        0 <= r.metadata.mode <= 3,
        r.hit_starts@.len() == r.hit_ends@.len(),
        forall|i: int| 0 <= i < r.hit_ends@.len() ==> #[trigger] r.hit_ends@[i] >= r.hit_starts@[i],
        forall|i: int|
            0 <= i < r.break_periods@.len() ==> 0 <= #[trigger] r.break_periods@[i].start
                < r.break_periods@[i].end,
        r.metadata.title@.len() > 0 && r.metadata.artist@.len() > 0 && r.metadata.creator@.len()
            > 0 && r.metadata.version@.len() > 0 && r.metadata.beatmap_set_id@.len() > 0,
{
    proof {
        lemma_chart_well_formed(content@);
    }
    let mut st = new_state();
    let n = content.len();
    let mut pos: usize = 0;
    loop
        invariant_except_break
            parse_from(content@, 0, initial_state()) == parse_from(content@, pos as int, st@),
        invariant
            pos <= n,
            n == content@.len(),
            state_wf(st@),
        ensures
            parse_from(content@, 0, initial_state()) == st@,
        decreases n - pos,
    {
        let e = match find_byte_from(content, pos, 10u8) {
            Some(p) => p,
            None => n,
        };
        proof {
            lemma_find_byte_bound(content@, pos as int, 10u8);
        }
        let ghost before = st@;
        parse_line(&mut st, &content[pos..e]);
        assert(parse_from(content@, pos as int, before) == if e >= n {
            st@
        } else {
            parse_from(content@, e + 1, st@)
        });
        if e >= n {
            break;
        }
        pos = e + 1;
    }
    let r = ParsedChart {
        metadata: normalize_metadata(st.meta),
        hit_starts: st.starts,
        hit_ends: st.ends,
        break_periods: st.breaks,
        bookmarks: st.bookmarks,
    };
    assert(r@ =~= chart_of(content@));
    assert forall|i: int| 0 <= i < r.break_periods@.len() implies 0
        <= #[trigger] r.break_periods@[i].start < r.break_periods@[i].end by {
        assert(r.break_periods@[i] == chart_of(content@).break_periods[i]);
    }
    r
}

/// The invariant that the parse keeps: every hit object ends no earlier than
/// it starts, and every break period has `0 <= start < end`.
pub open spec fn timing_sane(st: StateModel) -> bool {
    &&& st.starts.len() == st.ends.len()
    &&& forall|i: int| 0 <= i < st.ends.len() ==> #[trigger] st.ends[i] >= st.starts[i]
    &&& forall|i: int|
        0 <= i < st.breaks.len() ==> 0 <= #[trigger] st.breaks[i].start < st.breaks[i].end
}

proof fn lemma_line_step_sane(st: StateModel, line: Seq<u8>)
    requires
        timing_sane(st),
    ensures
        timing_sane(line_step(st, line)),
{
    reveal(line_step);
    let t = trim(line);
    if !(t.len() == 0 || is_comment(t)) && !is_header(t) {
        match st.section {
            OsuSection::HitObjects => {
                let st2 = hit_step(st, t);
                if field_count(t) >= 4 {
                    assert forall|i: int| 0 <= i < st2.ends.len() implies #[trigger] st2.ends[i]
                        >= st2.starts[i] by {
                        if i < st.ends.len() {
                            assert(st2.starts[i] == st.starts[i]);
                        }
                    }
                }
            },
            OsuSection::Events => {
                let st2 = events_step(st, t);
                assert forall|i: int| 0 <= i < st2.breaks.len() implies 0
                    <= #[trigger] st2.breaks[i].start < st2.breaks[i].end by {
                    if i < st.breaks.len() {
                        assert(st2.breaks[i] == st.breaks[i]);
                    }
                }
            },
            _ => {},
        }
    }
}

proof fn lemma_parse_from_sane(c: Seq<u8>, pos: int, st: StateModel)
    requires
        timing_sane(st),
    ensures
        timing_sane(parse_from(c, pos, st)),
    decreases c.len() - pos,
{
    let e = match find_byte(c, pos, 10u8) {
        Some(p) => p,
        None => c.len() as int,
    };
    let st2 = line_step(st, c.subrange(pos, e));
    lemma_line_step_sane(st, c.subrange(pos, e));
    if !(e >= c.len() || e < pos) {
        lemma_parse_from_sane(c, e + 1, st2);
    }
}

/// Every parse is well-formed: the mode is in `0..=3`; hit starts and ends
/// are aligned and no hit object ends before it starts; every break period
/// has `0 <= start < end`; title, artist, creator, version and beatmapset
/// reference are never empty.
pub proof fn lemma_chart_well_formed(c: Seq<u8>)
    ensures
        0 <= chart_of(c).metadata.mode <= 3,
        chart_of(c).hit_starts.len() == chart_of(c).hit_ends.len(),
        forall|i: int|
            0 <= i < chart_of(c).hit_ends.len() ==> #[trigger] chart_of(c).hit_ends[i]
                >= chart_of(c).hit_starts[i],
        forall|i: int|
            0 <= i < chart_of(c).break_periods.len() ==> 0
                <= #[trigger] chart_of(c).break_periods[i].start
                < chart_of(c).break_periods[i].end,
        chart_of(c).metadata.title.len() > 0,
        chart_of(c).metadata.artist.len() > 0,
        chart_of(c).metadata.creator.len() > 0,
        chart_of(c).metadata.version.len() > 0,
        chart_of(c).metadata.beatmap_set_id.len() > 0,
{
    lemma_parse_from_sane(c, 0, initial_state());
    assert(UNKNOWN_TITLE@.len() > 0);
    assert(UNKNOWN_ARTIST@.len() > 0);
    assert(UNKNOWN_CREATOR@.len() > 0);
    assert(UNKNOWN_VERSION@.len() > 0);
    assert(UNKNOWN@.len() > 0);
}

/// Parsing is a function of the text alone: equal texts give equal charts.
pub proof fn lemma_parse_deterministic(a: Seq<u8>, b: Seq<u8>)
    requires
        a == b,
    ensures
        chart_of(a) == chart_of(b),
{
}

} // verus!
