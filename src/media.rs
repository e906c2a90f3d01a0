//! Image files handed to the viewer: the MIME type by extension, and the
//! `data:` URL of an image's bytes.
use vstd::prelude::*;
use crate::chart::copy_bytes;
use crate::text::eq_ci;

verus! {

/// Position of the last `/` or `\` at or before `i - 1`, or -1.
pub open spec fn last_sep(s: Seq<u8>, i: int) -> int
    decreases i,
{
    if i <= 0 {
        -1
    } else if s[i - 1] == 47u8 || s[i - 1] == 92u8 {
        i - 1
    } else {
        last_sep(s, i - 1)
    }
}

/// Position of the last `.` in `s[lo..i]`, or -1.
pub open spec fn last_dot(s: Seq<u8>, lo: int, i: int) -> int
    decreases i - lo,
{
    if i <= lo {
        -1
    } else if s[i - 1] == 46u8 {
        i - 1
    } else {
        last_dot(s, lo, i - 1)
    }
}

/// The extension of a path, as `Path::extension` gives it: the text after
/// the last `.` of the file name, where that `.` is not its first byte.
pub open spec fn extension_of(path: Seq<u8>) -> Seq<u8> {
    let start = last_sep(path, path.len() as int) + 1;
    let dot = last_dot(path, start, path.len() as int);
    if dot <= start {
        Seq::empty()
    } else {
        path.subrange(dot + 1, path.len() as int)
    }
}

/// The MIME type for an extension, ignoring ASCII case.
pub open spec fn mime_of(ext: Seq<u8>) -> Seq<char> {
    if eq_ci(ext, seq![106u8, 112u8, 103u8]) || eq_ci(ext, seq![106u8, 112u8, 101u8, 103u8]) {
        "image/jpeg"@
    } else if eq_ci(ext, seq![112u8, 110u8, 103u8]) {
        "image/png"@
    } else if eq_ci(ext, seq![103u8, 105u8, 102u8]) {
        "image/gif"@
    } else if eq_ci(ext, seq![119u8, 101u8, 98u8, 112u8]) {
        "image/webp"@
    } else {
        "application/octet-stream"@
    }
}

const JPG: [u8; 3] = [106, 112, 103];

const JPEG: [u8; 4] = [106, 112, 101, 103];

const PNG: [u8; 3] = [112, 110, 103];

const GIF: [u8; 3] = [103, 105, 102];

const WEBP: [u8; 4] = [119, 101, 98, 112];

/// The extension of `path`.
pub fn path_extension(path: &[u8]) -> (r: &[u8])
    ensures
        r@ == extension_of(path@),
{
    let n = path.len();
    let mut i: usize = n;
    while i > 0 && path[i - 1] != 47u8 && path[i - 1] != 92u8
        invariant
            i <= n,
            n == path@.len(),
            last_sep(path@, n as int) == last_sep(path@, i as int),
        decreases i,
    {
        i = i - 1;
    }
    let start = i;
    assert(last_sep(path@, n as int) + 1 == start);
    let mut j: usize = n;
    while j > start && path[j - 1] != 46u8
        invariant
            start <= j <= n,
            n == path@.len(),
            last_dot(path@, start as int, n as int) == last_dot(path@, start as int, j as int),
        decreases j,
    {
        j = j - 1;
    }
    if j - start <= 1 {
        let e: &[u8] = &path[0..0];
        assert(e@ =~= Seq::<u8>::empty());
        e
    } else {
        &path[j..n]
    }
}

/// The MIME type of an image file by its extension.
pub fn get_mime_type(path: &[u8]) -> (r: &'static str)
    ensures
        r@ == mime_of(extension_of(path@)),
{
    let ext = path_extension(path);
    assert(JPG@ == seq![106u8, 112u8, 103u8]);
    assert(JPEG@ == seq![106u8, 112u8, 101u8, 103u8]);
    assert(PNG@ == seq![112u8, 110u8, 103u8]);
    assert(GIF@ == seq![103u8, 105u8, 102u8]);
    assert(WEBP@ == seq![119u8, 101u8, 98u8, 112u8]);
    if crate::text::eq_ascii_ci(ext, JPG.as_slice()) || crate::text::eq_ascii_ci(
        ext,
        JPEG.as_slice(),
    ) {
        "image/jpeg"
    } else if crate::text::eq_ascii_ci(ext, PNG.as_slice()) {
        "image/png"
    } else if crate::text::eq_ascii_ci(ext, GIF.as_slice()) {
        "image/gif"
    } else if crate::text::eq_ascii_ci(ext, WEBP.as_slice()) {
        "image/webp"
    } else {
        "application/octet-stream"
    }
}

/// The standard, padded base64 encoding of some bytes.
pub uninterp spec fn base64_of(b: Seq<u8>) -> Seq<u8>;

/// Relies on base64's `STANDARD.encode`: the padded standard-alphabet
/// encoding, four ASCII characters for each started group of three bytes.
/// It panics only when that length overflows `usize`.
#[verifier::external_body]
fn encode_base64(b: &[u8]) -> (r: Vec<u8>)
    requires
        b@.len() <= usize::MAX / 4,
    ensures
        r@ == base64_of(b@),
        r@.len() == 4 * ((b@.len() + 2) / 3),
{
    base64::Engine::encode(&base64::engine::general_purpose::STANDARD, b).into_bytes()
}

/// The bytes of an ASCII text.
pub open spec fn ascii_bytes(s: Seq<char>) -> Seq<u8> {
    s.map_values(|c: char| c as u8)
}

/// `data:` followed by the MIME type, `;base64,` and the encoded bytes.
pub open spec fn data_url(mime: Seq<u8>, encoded: Seq<u8>) -> Seq<u8> {
    seq![100u8, 97u8, 116u8, 97u8, 58u8] + mime + seq![
        59u8,
        98u8,
        97u8,
        115u8,
        101u8,
        54u8,
        52u8,
        44u8,
    ] + encoded
}

const DATA: [u8; 5] = [100, 97, 116, 97, 58];

const BASE64_TAG: [u8; 8] = [59, 98, 97, 115, 101, 54, 52, 44];

fn append_bytes(out: &mut Vec<u8>, s: &[u8])
    ensures
        final(out)@ == old(out)@ + s@,
{
    let ghost start = out@;
    let mut i: usize = 0;
    while i < s.len()
        invariant
            i <= s@.len(),
            out@ == start + s@.subrange(0, i as int),
        decreases s@.len() - i,
    {
        out.push(s[i]);
        i = i + 1;
        assert(out@ =~= start + s@.subrange(0, i as int));
    }
    assert(s@.subrange(0, s@.len() as int) =~= s@);
}

/// The `data:` URL of an already encoded payload.
pub fn data_url_from_encoded(mime: &[u8], encoded: &[u8]) -> (r: Vec<u8>)
    ensures
        r@ == data_url(mime@, encoded@),
{
    let mut out = copy_bytes(DATA.as_slice());
    append_bytes(&mut out, mime);
    append_bytes(&mut out, BASE64_TAG.as_slice());
    append_bytes(&mut out, encoded);
    assert(DATA@ == seq![100u8, 97u8, 116u8, 97u8, 58u8]);
    assert(BASE64_TAG@ == seq![59u8, 98u8, 97u8, 115u8, 101u8, 54u8, 52u8, 44u8]);
    out
}

/// The `data:` URL of the image at `path` with contents `bytes`, or `None`
/// where the encoding would not fit in memory.
pub fn image_data_url(path: &[u8], bytes: &[u8]) -> (r: Option<Vec<u8>>)
    ensures
        bytes@.len() <= usize::MAX / 4 ==> (r matches Some(u) && u@ == data_url(
            ascii_bytes(mime_of(extension_of(path@))),
            base64_of(bytes@),
        )),
        bytes@.len() > usize::MAX / 4 ==> r is None,
{
    if bytes.len() > usize::MAX / 4 {
        return None;
    }
    let mime = get_mime_type(path);
    let mime_bytes = mime.as_bytes();
    let encoded = encode_base64(bytes);
    proof {
        reveal_strlit("image/jpeg");
        reveal_strlit("image/png");
        reveal_strlit("image/gif");
        reveal_strlit("image/webp");
        reveal_strlit("application/octet-stream");
        assert(vstd::string::is_ascii(mime));
        vstd::string::is_ascii_spec_bytes(mime);
        assert(mime_bytes@ =~= ascii_bytes(mime@));
    }
    Some(data_url_from_encoded(mime_bytes, encoded.as_slice()))
}

/// `http://`
pub const HTTP: [u8; 7] = [104, 116, 116, 112, 58, 47, 47];

/// `https://`
pub const HTTPS: [u8; 8] = [104, 116, 116, 112, 115, 58, 47, 47];

pub open spec fn starts_with(s: Seq<u8>, p: Seq<u8>) -> bool {
    s.len() >= p.len() && s.subrange(0, p.len() as int) == p
}

/// Whether a link may be opened in the browser: it starts with `https://`
/// or `http://`.
pub fn is_web_url(url: &[u8]) -> (r: bool)
    ensures
        r == (starts_with(url@, HTTPS@) || starts_with(url@, HTTP@)),
{
    let https = HTTPS.as_slice();
    let http = HTTP.as_slice();
    (url.len() >= https.len() && crate::scan::contains_prefix(url, https)) || (url.len()
        >= http.len() && crate::scan::contains_prefix(url, http))
}

} // verus!
