//! Values exchanged with remote services: the release tag of an update
//! check and the user id in a profile link.
use vstd::prelude::*;
use crate::chart::copy_bytes;
use crate::media::starts_with;
use crate::text::{find_byte, find_byte_from, lemma_find_byte_bound};

verus! {

/// `http`
pub const HTTP_PREFIX: [u8; 4] = [104, 116, 116, 112];

/// The text without its leading `v`s.
pub open spec fn strip_v(s: Seq<u8>) -> Seq<u8>
    decreases s.len(),
{
    if s.len() > 0 && s[0] == 118u8 {
        strip_v(s.drop_first())
    } else {
        s
    }
}

/// The version that a release tag names: the tag without its leading `v`s.
pub fn release_version(tag: &[u8]) -> (r: &[u8])
    ensures
        r@ == strip_v(tag@),
{
    let n = tag.len();
    let mut i: usize = 0;
    assert(tag@.subrange(0, n as int) =~= tag@);
    while i < n && tag[i] == 118u8
        invariant
            i <= n,
            n == tag@.len(),
            strip_v(tag@) == strip_v(tag@.subrange(i as int, n as int)),
        decreases n - i,
    {
        assert(tag@.subrange(i as int, n as int).drop_first() =~= tag@.subrange(i + 1, n as int));
        i = i + 1;
    }
    assert(tag@.subrange(0, n as int) =~= tag@);
    &tag[i..n]
}

/// Position just after the last `/` before `i`, or 0.
pub open spec fn after_last_slash(s: Seq<u8>, i: int) -> int
    decreases i,
{
    if i <= 0 {
        0
    } else if s[i - 1] == 47u8 {
        i
    } else {
        after_last_slash(s, i - 1)
    }
}

/// The user id in a profile link or id: for a link (starting with `http`),
/// its last `/`-separated part up to the first `?`; otherwise the text.
pub open spec fn user_id_of(s: Seq<u8>) -> Seq<u8> {
    if starts_with(s, HTTP_PREFIX@) {
        let tail = s.subrange(after_last_slash(s, s.len() as int), s.len() as int);
        match find_byte(tail, 0, 63u8) {
            Some(p) => tail.subrange(0, p),
            None => tail,
        }
    } else {
        s
    }
}

/// The user id in `url_or_id`, or `None` where it is empty.
pub fn user_id_from_input(url_or_id: &[u8]) -> (r: Option<Vec<u8>>)
    ensures
        match r {
            Some(v) => v@ == user_id_of(url_or_id@) && v@.len() > 0,
            None => user_id_of(url_or_id@).len() == 0,
        },
{
    let n = url_or_id.len();
    let prefix = HTTP_PREFIX.as_slice();
    let id: &[u8] = if n >= prefix.len() && crate::scan::contains_prefix(url_or_id, prefix) {
        let mut i: usize = n;
        while i > 0 && url_or_id[i - 1] != 47u8
            invariant
                i <= n,
                n == url_or_id@.len(),
                after_last_slash(url_or_id@, n as int) == after_last_slash(url_or_id@, i as int),
            decreases i,
        {
            i = i - 1;
        }
        let tail = &url_or_id[i..n];
        let tl = tail.len();
        match find_byte_from(tail, 0, 63u8) {
            Some(p) => {
                proof {
                    lemma_find_byte_bound(tail@, 0, 63u8);
                }
                &tail[0..p]
            },
            None => tail,
        }
    } else {
        url_or_id
    };
    if id.len() == 0 {
        None
    } else {
        Some(copy_bytes(id))
    }
}

} // verus!
