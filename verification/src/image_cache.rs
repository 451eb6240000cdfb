//! The image cache's bookkeeping: the tagged-RGBA container that clipboard
//! images are stored in, whether a stored file can be trusted, and where a
//! thumbnail lives, and the PNG thumbnail of a pixel buffer. Reading and
//! writing files, and choosing the thumbnail's size, is the caller's part.
use vstd::prelude::*;
use crate::paths::{joined_path, path_join};
use crate::text::{append_chars, chars_of, ends_with, ends_with_exec, slice_chars, string_of};

verus! {

/// Byte length of the tagged-RGBA header: two little-endian `u32`s.
pub const RGBA_HEADER: usize = 8;

/// The little-endian `u32` held by four bytes.
pub open spec fn le_u32(b0: u8, b1: u8, b2: u8, b3: u8) -> int {
    b0 as int + 256 * (b1 as int) + 65536 * (b2 as int) + 16777216 * (b3 as int)
}

fn le_u32_exec(b0: u8, b1: u8, b2: u8, b3: u8) -> (r: u32)
    ensures
        r as int == le_u32(b0, b1, b2, b3),
{
    (b0 as u32) + (b1 as u32) * 256 + (b2 as u32) * 65536 + (b3 as u32) * 16777216
}

/// Width and height recorded in a tagged-RGBA header.
pub fn header_dims(head: &[u8; 8]) -> (r: (u32, u32))
    ensures
        r.0 as int == le_u32(head@[0], head@[1], head@[2], head@[3]),
        r.1 as int == le_u32(head@[4], head@[5], head@[6], head@[7]),
{
    (le_u32_exec(head[0], head[1], head[2], head[3]), le_u32_exec(head[4], head[5], head[6], head[7]))
}

/// `w * h * 4 + 8`, the byte length of a `w`×`h` tagged-RGBA blob, when it
/// fits in a `u64`.
pub open spec fn expected_len_spec(w: int, h: int) -> Option<int> {
    let n = w * h * 4 + RGBA_HEADER;
    if n <= u64::MAX {
        Some(n)
    } else {
        None
    }
}

pub fn expected_len(w: u32, h: u32) -> (r: Option<u64>)
    ensures
        r matches Some(n) ==> expected_len_spec(w as int, h as int) == Some(n as int),
        r is None ==> expected_len_spec(w as int, h as int) is None,
{
    let w64 = w as u64;
    let h64 = h as u64;
    assert((w64 as int) * (h64 as int) <= 0xffff_ffff * 0xffff_ffff) by (nonlinear_arith)
        requires
            w64 <= 0xffff_ffff,
            h64 <= 0xffff_ffff,
    ;
    let wh = w64 * h64;
    match wh.checked_mul(4) {
        None => None,
        Some(a) => a.checked_add(8),
    }
}

/// The width, height and pixel bytes of a well-formed tagged-RGBA blob:
/// `[u32 LE width][u32 LE height][RGBA bytes…]`, both dimensions non-zero and
/// the length exactly `width * height * 4 + 8`.
pub open spec fn tagged_rgba_spec(bytes: Seq<u8>) -> Option<(int, int)> {
    if bytes.len() < RGBA_HEADER {
        None
    } else {
        let w = le_u32(bytes[0], bytes[1], bytes[2], bytes[3]);
        let h = le_u32(bytes[4], bytes[5], bytes[6], bytes[7]);
        if w == 0 || h == 0 || expected_len_spec(w, h) != Some(bytes.len() as int) {
            None
        } else {
            Some((w, h))
        }
    }
}

/// Parse `[u32 LE width][u32 LE height][RGBA bytes…]`. Returns `None` unless the
/// length matches `width * height * 4` exactly, so a truncated or foreign blob
/// is ignored rather than rendered as garbage.
pub fn parse_tagged_rgba(bytes: &[u8]) -> (r: Option<(u32, u32, &[u8])>)
    ensures
        r matches Some((w, h, px)) ==> tagged_rgba_spec(bytes@) == Some((w as int, h as int))
            && px@ == bytes@.skip(RGBA_HEADER as int),
        r is None ==> tagged_rgba_spec(bytes@) is None,
{
    if bytes.len() < RGBA_HEADER {
        return None;
    }
    let head: [u8; 8] = [bytes[0], bytes[1], bytes[2], bytes[3], bytes[4], bytes[5], bytes[6], bytes[7]];
    let (w, h) = header_dims(&head);
    if w == 0 || h == 0 {
        return None;
    }
    match expected_len(w, h) {
        None => None,
        Some(n) => {
            if n != bytes.len() as u64 {
                return None;
            }
            let px = vstd::slice::slice_subrange(bytes, RGBA_HEADER, bytes.len());
            assert(px@ =~= bytes@.skip(RGBA_HEADER as int));
            Some((w, h, px))
        },
    }
}

/// The dimensions of a stored original from its header, trusted only when the
/// file's length `file_len` matches them exactly.
pub fn trusted_dims(head: &[u8; 8], file_len: u64) -> (r: Option<(u32, u32)>)
    ensures
        r matches Some((w, h)) ==> w as int == le_u32(head@[0], head@[1], head@[2], head@[3]) && h
            as int == le_u32(head@[4], head@[5], head@[6], head@[7]) && expected_len_spec(
            w as int,
            h as int,
        ) == Some(file_len as int),
        r is None ==> expected_len_spec(
            le_u32(head@[0], head@[1], head@[2], head@[3]),
            le_u32(head@[4], head@[5], head@[6], head@[7]),
        ) != Some(file_len as int),
{
    let (w, h) = header_dims(head);
    match expected_len(w, h) {
        Some(n) => if n == file_len {
            Some((w, h))
        } else {
            None
        },
        None => None,
    }
}

/// Where the thumbnail of the image with content hash `hash` lives.
pub struct FsImageStore {
    pub dir: String,
}

impl FsImageStore {
    /// `<dir>/<hash>.thumb.png`.
    pub fn thumbnail_path(&self, hash: &str) -> (r: String)
        ensures
            r@ == joined_path(self.dir@, hash@ + ".thumb.png"@),
    {
        let mut name = chars_of(hash);
        append_chars(&mut name, &chars_of(".thumb.png"));
        let n = string_of(name.as_slice());
        path_join(self.dir.as_str(), n.as_str())
    }

    /// `<dir>/<hash>.bin`, where the original is stored.
    pub fn original_path(&self, hash: &str) -> (r: String)
        ensures
            r@ == joined_path(self.dir@, hash@ + ".bin"@),
    {
        let mut name = chars_of(hash);
        append_chars(&mut name, &chars_of(".bin"));
        let n = string_of(name.as_slice());
        path_join(self.dir.as_str(), n.as_str())
    }
}

/// The thumbnail next to a stored original `<stem>.bin`: `<stem>.thumb.png`.
pub open spec fn thumb_sibling_spec(p: Seq<char>) -> Option<Seq<char>> {
    if ends_with(p, ".bin"@) {
        Some(p.take(p.len() - 4) + ".thumb.png"@)
    } else {
        None
    }
}

pub fn thumb_sibling(p: &str) -> (r: Option<String>)
    ensures
        r matches Some(s) ==> thumb_sibling_spec(p@) == Some(s@),
        r is None ==> thumb_sibling_spec(p@) is None,
{
    let v = chars_of(p);
    let suffix = chars_of(".bin");
    proof {
        reveal_strlit(".bin");
    }
    if ends_with_exec(&v, &suffix) {
        let n = v.len();
        let mut out = slice_chars(&v, 0, n - 4);
        append_chars(&mut out, &chars_of(".thumb.png"));
        Some(string_of(out.as_slice()))
    } else {
        None
    }
}


/// The PNG bytes `image` makes of a `w`×`h` RGBA buffer scaled to `tw`×`th`
/// with `imageops::thumbnail`; `None` when the buffer is too short for its
/// dimensions or the encoder refuses.
pub uninterp spec fn png_thumbnail(w: u32, h: u32, rgba: Seq<u8>, tw: u32, th: u32) -> Option<Seq<u8>>;

/// Calls `image::RgbaImage::from_raw`, `image::imageops::thumbnail` and
/// `ImageBuffer::write_to(.., ImageFormat::Png)`: the named PNG, and `None`
/// when `rgba` holds fewer than `4·w·h` bytes (`from_raw` refuses it). The
/// thumbnail's pixel buffer must fit in memory.
#[verifier::external_body]
fn encode_thumbnail(w: u32, h: u32, rgba: &[u8], tw: u32, th: u32) -> (r: Option<Vec<u8>>)
    requires
        4 * (tw as int) * (th as int) <= isize::MAX,
    ensures
        match r {
            Some(v) => png_thumbnail(w, h, rgba@, tw, th) == Some(v@),
            None => png_thumbnail(w, h, rgba@, tw, th) is None,
        },
        rgba@.len() < 4 * (w as int) * (h as int) ==> r is None,
{
    let img = image::RgbaImage::from_raw(w, h, rgba.to_vec())?;
    let thumb = image::imageops::thumbnail(&img, tw, th);
    let mut out = std::io::Cursor::new(Vec::new());
    thumb.write_to(&mut out, image::ImageFormat::Png).ok()?;
    Some(out.into_inner())
}

/// A PNG thumbnail of the `w`×`h` RGBA pixels `rgba`, scaled to `tw`×`th`;
/// `None` when `rgba` is too short for its dimensions or encoding fails.
pub fn thumbnail_png(w: u32, h: u32, rgba: &[u8], tw: u32, th: u32) -> (r: Option<Vec<u8>>)
    requires
        4 * (tw as int) * (th as int) <= isize::MAX,
    ensures
        match r {
            Some(v) => png_thumbnail(w, h, rgba@, tw, th) == Some(v@),
            None => png_thumbnail(w, h, rgba@, tw, th) is None,
        },
        rgba@.len() < 4 * (w as int) * (h as int) ==> r is None,
{
    encode_thumbnail(w, h, rgba, tw, th)
}

} // verus!
