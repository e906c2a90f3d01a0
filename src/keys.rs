//! The words of the chart format: section names, keys and fixed texts.
use vstd::prelude::*;

verus! {

/// `General`
pub const GENERAL: [u8; 7] = [71, 101, 110, 101, 114, 97, 108];

/// `Editor`
pub const EDITOR: [u8; 6] = [69, 100, 105, 116, 111, 114];

/// `Metadata`
pub const METADATA: [u8; 8] = [77, 101, 116, 97, 100, 97, 116, 97];

/// `Difficulty`
pub const DIFFICULTY: [u8; 10] = [68, 105, 102, 102, 105, 99, 117, 108, 116, 121];

/// `Events`
pub const EVENTS: [u8; 6] = [69, 118, 101, 110, 116, 115];

/// `TimingPoints`
pub const TIMING_POINTS: [u8; 12] = [84, 105, 109, 105, 110, 103, 80, 111, 105, 110, 116, 115];

/// `HitObjects`
pub const HIT_OBJECTS: [u8; 10] = [72, 105, 116, 79, 98, 106, 101, 99, 116, 115];

/// `Title`
pub const TITLE: [u8; 5] = [84, 105, 116, 108, 101];

/// `Artist`
pub const ARTIST: [u8; 6] = [65, 114, 116, 105, 115, 116];

/// `Creator`
pub const CREATOR: [u8; 7] = [67, 114, 101, 97, 116, 111, 114];

/// `Version`
pub const VERSION: [u8; 7] = [86, 101, 114, 115, 105, 111, 110];

/// `BeatmapSetID`
pub const BEATMAP_SET_ID: [u8; 12] = [66, 101, 97, 116, 109, 97, 112, 83, 101, 116, 73, 68];

/// `AudioFilename`
pub const AUDIO_FILENAME: [u8; 13] = [65, 117, 100, 105, 111, 70, 105, 108, 101, 110, 97, 109, 101];

/// `PreviewTime`
pub const PREVIEW_TIME: [u8; 11] = [80, 114, 101, 118, 105, 101, 119, 84, 105, 109, 101];

/// `Mode`
pub const MODE: [u8; 4] = [77, 111, 100, 101];

/// `SliderMultiplier`
pub const SLIDER_MULTIPLIER: [u8; 16] = [83, 108, 105, 100, 101, 114, 77, 117, 108, 116, 105, 112, 108, 105, 101, 114];

/// `Bookmarks`
pub const BOOKMARKS: [u8; 9] = [66, 111, 111, 107, 109, 97, 114, 107, 115];

/// `Break`
pub const BREAK: [u8; 5] = [66, 114, 101, 97, 107];

/// `https://osu.ppy.sh/beatmapsets/`
pub const SET_URL: [u8; 31] = [104, 116, 116, 112, 115, 58, 47, 47, 111, 115, 117, 46, 112, 112, 121, 46, 115, 104, 47, 98, 101, 97, 116, 109, 97, 112, 115, 101, 116, 115, 47];

/// `Unknown Title`
pub const UNKNOWN_TITLE: [u8; 13] = [85, 110, 107, 110, 111, 119, 110, 32, 84, 105, 116, 108, 101];

/// `Unknown Artist`
pub const UNKNOWN_ARTIST: [u8; 14] = [85, 110, 107, 110, 111, 119, 110, 32, 65, 114, 116, 105, 115, 116];

/// `Unknown Creator`
pub const UNKNOWN_CREATOR: [u8; 15] = [85, 110, 107, 110, 111, 119, 110, 32, 67, 114, 101, 97, 116, 111, 114];

/// `Unknown Version`
pub const UNKNOWN_VERSION: [u8; 15] = [85, 110, 107, 110, 111, 119, 110, 32, 86, 101, 114, 115, 105, 111, 110];

/// `Unknown`
pub const UNKNOWN: [u8; 7] = [85, 110, 107, 110, 111, 119, 110];

} // verus!
