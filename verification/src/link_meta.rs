//! Page metadata for bookmarks — `<title>` and `og:image` — read from raw HTML,
//! and the cache file name of a page's preview image. Fetching pages and
//! images is the caller's part.
//!
//! Tags are found in the lowercased page and the text is cut from the page as
//! it was, at the same byte offsets. Where an offset would fall inside a
//! character of the page (lowercasing changed a character's width), the
//! value is treated as missing: reading metadata never panics.
use vstd::prelude::*;
use vstd::string::StringSliceAdditionalSpecFns;
use crate::paths::{joined_path, path_join};
use crate::text::{
    append_chars, byte_len, byte_offset, char_index, char_index_exec, chars_of, contains,
    contains_exec, find, find_exec, find_from, find_from_exec, is_char_boundary, lemma_find_from,
    occurs_at, slice_chars, starts_with, str_lowercase, string_of, to_lowercase, trim, trim_exec,
};

verus! {

/// Page metadata: the title and the preview image URL, when present and non-empty.
#[derive(Debug, Clone, PartialEq, Eq)]
pub struct LinkMeta {
    pub title: Option<String>,
    pub image: Option<String>,
}

/// Byte offset of character `k` of `s`.
pub open spec fn bpos(s: Seq<char>, k: int) -> int {
    byte_len(s.take(k)) as int
}

/// The characters of `s` between byte offsets `b1` and `b2`, when both fall
/// between characters and `b1 <= b2`.
pub open spec fn slice_bytes(s: Seq<char>, b1: int, b2: int) -> Option<Seq<char>> {
    if b1 <= b2 && is_char_boundary(s, b1) && is_char_boundary(s, b2) {
        Some(s.subrange(char_index(s, b1), char_index(s, b2)))
    } else {
        None
    }
}

/// `slice_bytes` on character vectors.
fn slice_bytes_exec(s: &Vec<char>, b1: usize, b2: usize) -> (r: Option<Vec<char>>)
    ensures
        r matches Some(v) ==> slice_bytes(s@, b1 as int, b2 as int) == Some(v@) && byte_len(v@)
            <= byte_len(s@),
        r is None ==> slice_bytes(s@, b1 as int, b2 as int) is None,
{
    if b1 > b2 {
        return None;
    }
    match (char_index_exec(s, b1), char_index_exec(s, b2)) {
        (Some(k1), Some(k2)) => {
            proof {
                if k1 > k2 {
                    crate::text::lemma_byte_len_take_mono(s@, k2 as int, k1 as int);
                }
                lemma_subrange_byte_len(s@, k1 as int, k2 as int);
            }
            Some(slice_chars(s, k1, k2))
        },
        _ => None,
    }
}

proof fn lemma_subrange_byte_len(s: Seq<char>, i: int, j: int)
    requires
        0 <= i <= j <= s.len(),
    ensures
        byte_len(s.subrange(i, j)) <= byte_len(s),
{
    assert(s =~= s.take(i) + s.subrange(i, j) + s.skip(j));
    crate::text::lemma_byte_len_append(s.take(i), s.subrange(i, j));
    crate::text::lemma_byte_len_append(s.take(i) + s.subrange(i, j), s.skip(j));
}

// ---------------------------------------------------------------------------
// Entities
// ---------------------------------------------------------------------------

/// Every occurrence of `pat` (non-empty) replaced by `rep`, left to right
/// (`str::replace`).
pub open spec fn replace_all(s: Seq<char>, pat: Seq<char>, rep: Seq<char>) -> Seq<char>
    decreases s.len(),
{
    if s.len() == 0 || pat.len() == 0 {
        s
    } else if starts_with(s, pat) {
        rep + replace_all(s.skip(pat.len() as int), pat, rep)
    } else {
        seq![s[0]] + replace_all(s.drop_first(), pat, rep)
    }
}

fn replace_all_exec(s: &Vec<char>, pat: &Vec<char>, rep: &Vec<char>) -> (r: Vec<char>)
    requires
        pat@.len() > 0,
    ensures
        r@ == replace_all(s@, pat@, rep@),
{
    let mut out: Vec<char> = Vec::new();
    let mut i: usize = 0;
    assert(s@.skip(0) =~= s@);
    while i < s.len()
        invariant
            i <= s@.len(),
            pat@.len() > 0,
            out@ + replace_all(s@.skip(i as int), pat@, rep@) == replace_all(s@, pat@, rep@),
        decreases s.len() - i,
    {
        let ghost t = s@.skip(i as int);
        if crate::text::occurs_at_exec(s, pat, i) {
            assert(starts_with(t, pat@)) by {
                assert(t.subrange(0, pat@.len() as int) =~= s@.subrange(i as int, i + pat@.len()));
            }
            assert(t.skip(pat@.len() as int) =~= s@.skip(i + pat@.len()));
            let ghost o = out@;
            append_chars(&mut out, rep);
            assert(out@ + replace_all(s@.skip(i + pat@.len()), pat@, rep@) =~= o + replace_all(
                t,
                pat@,
                rep@,
            ));
            i = i + pat.len();
        } else {
            assert(!starts_with(t, pat@)) by {
                if i + pat@.len() <= s@.len() {
                    assert(t.subrange(0, pat@.len() as int) =~= s@.subrange(
                        i as int,
                        i + pat@.len(),
                    ));
                }
            }
            assert(t.drop_first() =~= s@.skip(i + 1));
            let ghost o = out@;
            out.push(s[i]);
            assert(out@ + replace_all(s@.skip(i + 1), pat@, rep@) =~= o + replace_all(t, pat@, rep@));
            i = i + 1;
        }
    }
    assert(replace_all(s@.skip(i as int), pat@, rep@) =~= Seq::<char>::empty());
    assert(out@ + Seq::<char>::empty() =~= out@);
    out
}

/// `&amp;`, `&lt;`, `&gt;`, `&quot;` and `&#39;` decoded, in that order.
pub open spec fn decode_spec(s: Seq<char>) -> Seq<char> {
    replace_all(
        replace_all(
            replace_all(replace_all(replace_all(s, "&amp;"@, "&"@), "&lt;"@, "<"@), "&gt;"@, ">"@),
            "&quot;"@,
            "\""@,
        ),
        "&#39;"@,
        "'"@,
    )
}

fn replace_lit(s: &Vec<char>, pat: &str, rep: &str) -> (r: Vec<char>)
    requires
        pat@.len() > 0,
    ensures
        r@ == replace_all(s@, pat@, rep@),
{
    replace_all_exec(s, &chars_of(pat), &chars_of(rep))
}

/// Decode the five common HTML entities.
pub fn decode_entities(s: &str) -> (r: String)
    ensures
        r@ == decode_spec(s@),
{
    proof {
        reveal_strlit("&amp;");
        reveal_strlit("&lt;");
        reveal_strlit("&gt;");
        reveal_strlit("&quot;");
        reveal_strlit("&#39;");
    }
    let a = replace_lit(&chars_of(s), "&amp;", "&");
    let b = replace_lit(&a, "&lt;", "<");
    let c = replace_lit(&b, "&gt;", ">");
    let d = replace_lit(&c, "&quot;", "\"");
    let e = replace_lit(&d, "&#39;", "'");
    string_of(e.as_slice())
}

// ---------------------------------------------------------------------------
// Title
// ---------------------------------------------------------------------------

/// The text of `orig` between the `>` that ends the first `open` tag of
/// `lower` and the next `close` after it, cut at the byte offsets found in
/// `lower`.
pub open spec fn between_spec(lower: Seq<char>, orig: Seq<char>, open: Seq<char>, close: Seq<char>) -> Option<
    Seq<char>,
> {
    match find(lower, open) {
        None => None,
        Some(o) => match find_from(lower, seq!['>'], o) {
            None => None,
            Some(g) => match find_from(lower, close, g + 1) {
                None => None,
                Some(c) => slice_bytes(orig, bpos(lower, g + 1), bpos(lower, c)),
            },
        },
    }
}

fn extract_between(lower: &Vec<char>, orig: &Vec<char>, open: &str, close: &str) -> (r: Option<Vec<char>>)
    requires
        byte_len(lower@) <= usize::MAX,
    ensures
        r matches Some(v) ==> between_spec(lower@, orig@, open@, close@) == Some(v@),
        r is None ==> between_spec(lower@, orig@, open@, close@) is None,
{
    let ov = chars_of(open);
    let cv = chars_of(close);
    let _ln = lower.len();
    let gt = vec!['>'];
    assert(gt@ =~= seq!['>']);
    let o = match find_exec(lower, &ov) {
        None => {
            return None;
        },
        Some(o) => o,
    };
    let g = match find_from_exec(lower, &gt, o) {
        None => {
            return None;
        },
        Some(g) => g,
    };
    proof {
        lemma_find_from(lower@, gt@, o as int);
    }
    assert(occurs_at(lower@, gt@, g as int));
    let c = match find_from_exec(lower, &cv, g + 1) {
        None => {
            return None;
        },
        Some(c) => c,
    };
    proof {
        lemma_find_from(lower@, cv@, g + 1);
    }
    let b1 = byte_offset(lower, g + 1);
    let b2 = byte_offset(lower, c);
    slice_bytes_exec(orig, b1, b2)
}

// ---------------------------------------------------------------------------
// og:image
// ---------------------------------------------------------------------------

/// The value of `attr="…"` (or `attr='…'`) in a tag, located in the
/// lowercased tag and cut from the original one.
pub open spec fn attr_spec(tag_lower: Seq<char>, tag_orig: Seq<char>, attr: Seq<char>) -> Option<Seq<char>> {
    let key = attr + seq!['='];
    match find(tag_lower, key) {
        None => None,
        Some(k0) => {
            let k = k0 + key.len();
            if k >= tag_lower.len() {
                None
            } else {
                let q = tag_lower[k];
                if q != '"' && q != '\'' {
                    None
                } else {
                    match find_from(tag_lower, seq![q], k + 1) {
                        None => None,
                        Some(e) => slice_bytes(tag_orig, bpos(tag_lower, k + 1), bpos(tag_lower, e)),
                    }
                }
            }
        },
    }
}

fn attr_value(tag_lower: &Vec<char>, tag_orig: &Vec<char>, attr: &str) -> (r: Option<Vec<char>>)
    requires
        byte_len(tag_lower@) <= usize::MAX,
    ensures
        r matches Some(v) ==> attr_spec(tag_lower@, tag_orig@, attr@) == Some(v@),
        r is None ==> attr_spec(tag_lower@, tag_orig@, attr@) is None,
{
    let _ln = tag_lower.len();
    let mut key = chars_of(attr);
    key.push('=');
    let ghost kv = key@;
    assert(kv =~= attr@ + seq!['=']);
    let k0 = match find_exec(tag_lower, &key) {
        None => {
            return None;
        },
        Some(k0) => k0,
    };
    assert(occurs_at(tag_lower@, key@, k0 as int));
    let kl = key.len();
    let k = k0 + kl;
    if k >= tag_lower.len() {
        return None;
    }
    let q = tag_lower[k];
    if q != '"' && q != '\'' {
        return None;
    }
    let qv = vec![q];
    assert(qv@ =~= seq![q]);
    let e = match find_from_exec(tag_lower, &qv, k + 1) {
        None => {
            return None;
        },
        Some(e) => e,
    };
    proof {
        lemma_find_from(tag_lower@, qv@, k + 1);
    }
    let b1 = byte_offset(tag_lower, k + 1);
    let b2 = byte_offset(tag_lower, e);
    slice_bytes_exec(tag_orig, b1, b2)
}

/// A tag that names the page's preview image.
pub open spec fn is_og_image_tag(tag_lower: Seq<char>) -> bool {
    contains(tag_lower, "property=\"og:image\""@) || contains(tag_lower, "property='og:image'"@)
        || contains(tag_lower, "name=\"og:image\""@)
}

/// The first `<meta>` tag at or after character `search` of `lower` that names
/// the preview image and has a `content` value: that value, trimmed and
/// decoded. A tag runs to its `>`, or to the end of the page when unclosed.
pub open spec fn og_scan(lower: Seq<char>, orig: Seq<char>, search: int) -> Option<Seq<char>>
    decreases lower.len() - search,
{
    if search < 0 || search > lower.len() {
        None
    } else {
        match find_from(lower, "<meta"@, search) {
            None => None,
            Some(start) => {
                let end_b = match find_from(lower, seq!['>'], start) {
                    Some(g) => bpos(lower, g + 1),
                    None => byte_len(orig) as int,
                };
                let sb = bpos(lower, start);
                match (slice_bytes(lower, sb, end_b), slice_bytes(orig, sb, end_b)) {
                    (Some(tl), Some(to)) => {
                        proof {
                            lemma_find_from(lower, "<meta"@, search);
                            lemma_char_index_bound(lower, end_b);
                        }
                        let hit = if is_og_image_tag(tl) {
                            attr_spec(tl, to, "content"@)
                        } else {
                            None
                        };
                        match hit {
                            Some(v) => Some(decode_spec(trim(v))),
                            None => {
                                let next = char_index(lower, end_b);
                                if next > start {
                                    og_scan(lower, orig, next)
                                } else {
                                    None
                                }
                            },
                        }
                    },
                    _ => None,
                }
            },
        }
    }
}

pub proof fn lemma_char_index_bound(s: Seq<char>, b: int)
    requires
        is_char_boundary(s, b),
    ensures
        0 <= char_index(s, b) <= s.len(),
        crate::text::char_at_byte(s, b, char_index(s, b)),
{
    let k = choose|k: int| crate::text::char_at_byte(s, b, k);
    crate::text::lemma_char_index_unique(s, b, k);
}

fn extract_og_image(lower: &Vec<char>, orig: &Vec<char>) -> (r: Option<Vec<char>>)
    requires
        byte_len(lower@) <= usize::MAX,
        byte_len(orig@) <= usize::MAX,
    ensures
        r matches Some(v) ==> og_scan(lower@, orig@, 0) == Some(v@),
        r is None ==> og_scan(lower@, orig@, 0) is None,
{
    let meta = chars_of("<meta");
    let gt = vec!['>'];
    assert(gt@ =~= seq!['>']);
    let orig_len = byte_offset(orig, orig.len());
    assert(orig@.take(orig@.len() as int) =~= orig@);
    let mut search: usize = 0;
    while search <= lower.len()
        invariant
            byte_len(lower@) <= usize::MAX,
            meta@ == "<meta"@,
            gt@ == seq!['>'],
            orig_len == byte_len(orig@),
            og_scan(lower@, orig@, 0) == og_scan(lower@, orig@, search as int),
        decreases lower@.len() + 1 - search,
    {
        let start = match find_from_exec(lower, &meta, search) {
            None => {
                return None;
            },
            Some(s) => s,
        };
        proof {
            lemma_find_from(lower@, meta@, search as int);
        }
        let end_b = match find_from_exec(lower, &gt, start) {
            Some(g) => {
                proof {
                    lemma_find_from(lower@, gt@, start as int);
                }
                assert(occurs_at(lower@, gt@, g as int));
                byte_offset(lower, g + 1)
            },
            None => orig_len,
        };
        let sb = byte_offset(lower, start);
        let tl = match slice_bytes_exec(lower, sb, end_b) {
            None => {
                return None;
            },
            Some(t) => t,
        };
        let to = match slice_bytes_exec(orig, sb, end_b) {
            None => {
                return None;
            },
            Some(t) => t,
        };
        let p1 = chars_of("property=\"og:image\"");
        let p2 = chars_of("property='og:image'");
        let p3 = chars_of("name=\"og:image\"");
        if contains_exec(&tl, &p1) || contains_exec(&tl, &p2) || contains_exec(&tl, &p3) {
            match attr_value(&tl, &to, "content") {
                Some(v) => {
                    let t = trim_exec(&v);
                    let ts = string_of(t.as_slice());
                    return Some(chars_of(decode_entities(ts.as_str()).as_str()));
                },
                None => {},
            }
        }
        let next = match char_index_exec(lower, end_b) {
            Some(k) => k,
            None => {
                return None;
            },
        };
        if next <= start {
            return None;
        }
        search = next;
    }
    None
}

/// The title (trimmed, entities decoded) and preview image of a page, each
/// kept only when non-empty.
pub open spec fn link_meta_spec(lower: Seq<char>, html: Seq<char>) -> (Option<Seq<char>>, Option<Seq<char>>) {
    let title = match between_spec(lower, html, "<title"@, "</title>"@) {
        Some(t) => Some(decode_spec(trim(t))),
        None => None,
    };
    let image = og_scan(lower, html, 0);
    (
        match title {
            Some(t) => if t.len() > 0 {
                Some(t)
            } else {
                None
            },
            None => None,
        },
        match image {
            Some(i) => if i.len() > 0 {
                Some(i)
            } else {
                None
            },
            None => None,
        },
    )
}

pub open spec fn opt_str_view(o: Option<String>) -> Option<Seq<char>> {
    match o {
        Some(s) => Some(s@),
        None => None,
    }
}

fn nonempty(v: Option<Vec<char>>) -> (r: Option<String>)
    ensures
        opt_str_view(r) == match v {
            Some(s) => if s@.len() > 0 {
                Some(s@)
            } else {
                None
            },
            None => None,
        },
{
    match v {
        Some(s) => if s.len() > 0 {
            Some(string_of(s.as_slice()))
        } else {
            None
        },
        None => None,
    }
}

/// Byte length of `s`, when it fits in a `usize`.
fn checked_byte_len(s: &Vec<char>) -> (r: Option<usize>)
    ensures
        r matches Some(n) ==> n == byte_len(s@),
        r is None ==> byte_len(s@) > usize::MAX,
{
    let mut n: usize = 0;
    let mut i: usize = 0;
    assert(s@.take(0) =~= Seq::<char>::empty());
    while i < s.len()
        invariant
            i <= s@.len(),
            n == byte_len(s@.take(i as int)),
        decreases s.len() - i,
    {
        proof {
            crate::text::lemma_byte_len_take_step(s@, i as int);
        }
        let w = crate::text::utf8_width_exec(s[i]);
        if n > usize::MAX - w {
            proof {
                if i + 1 < s@.len() {
                    crate::text::lemma_byte_len_take_mono(s@, i + 1, s@.len() as int);
                }
                assert(s@.take(s@.len() as int) =~= s@);
            }
            return None;
        }
        n = n + w;
        i += 1;
    }
    assert(s@.take(s@.len() as int) =~= s@);
    Some(n)
}

/// Extract <title> and og:image from raw HTML. Case-insensitive tags; minimal entity
/// decode. Best-effort — never panics. (A lowercased page too long to index
/// yields no metadata.)
pub fn parse_link_meta(html: &str) -> (r: LinkMeta)
    requires
        byte_len(html@) <= usize::MAX,
    ensures
        byte_len(str_lowercase(html@)) <= usize::MAX ==> (opt_str_view(r.title), opt_str_view(
            r.image,
        )) == link_meta_spec(str_lowercase(html@), html@),
        byte_len(str_lowercase(html@)) > usize::MAX ==> r.title is None && r.image is None,
{
    let lower_s = to_lowercase(html);
    let lower = chars_of(lower_s.as_str());
    if checked_byte_len(&lower).is_none() {
        return LinkMeta { title: None, image: None };
    }
    let orig = chars_of(html);
    let title = match extract_between(&lower, &orig, "<title", "</title>") {
        Some(t) => {
            let tt = trim_exec(&t);
            let ts = string_of(tt.as_slice());
            Some(chars_of(decode_entities(ts.as_str()).as_str()))
        },
        None => None,
    };
    let image = extract_og_image(&lower, &orig);
    LinkMeta { title: nonempty(title), image: nonempty(image) }
}

// ---------------------------------------------------------------------------
// Preview cache names
// ---------------------------------------------------------------------------

pub const FNV_OFFSET: u64 = 0xcbf29ce484222325;

pub const FNV_PRIME: u64 = 0x0000_0100_0000_01b3;

/// FNV-1a (64-bit) of the first `i` bytes.
pub open spec fn fnv1a(bytes: Seq<u8>, i: nat) -> u64
    decreases i,
{
    if i == 0 {
        FNV_OFFSET
    } else {
        let h = fnv1a(bytes, (i - 1) as nat) ^ (bytes[i - 1] as u64);
        vstd::wrapping::u64_specs::wrapping_mul(h, FNV_PRIME)
    }
}

pub open spec fn hex_char(d: int) -> char {
    if d < 10 {
        (48 + d) as char
    } else {
        (87 + d) as char
    }
}

/// The last `n` lowercase hex digits of `h`, most significant first.
pub open spec fn hex_digits(h: nat, n: nat) -> Seq<char>
    decreases n,
{
    if n == 0 {
        seq![]
    } else {
        hex_digits(h / 16, (n - 1) as nat).push(hex_char((h % 16) as int))
    }
}

fn hex_char_exec(d: u64) -> (c: char)
    requires
        d < 16,
    ensures
        c == hex_char(d as int),
{
    if d < 10 {
        ((48 + d) as u8) as char
    } else {
        ((87 + d) as u8) as char
    }
}

fn hex16(h: u64) -> (r: Vec<char>)
    ensures
        r@ == hex_digits(h as nat, 16),
{
    let mut digits: Vec<char> = Vec::new();
    let mut v: u64 = h;
    let mut k: usize = 0;
    while k < 16
        invariant
            k <= 16,
            hex_digits(h as nat, 16) == hex_digits(v as nat, (16 - k) as nat) + digits@,
        decreases 16 - k,
    {
        let c = hex_char_exec(v % 16);
        let ghost d0 = digits@;
        digits.insert(0, c);
        assert(hex_digits(v as nat, (16 - k) as nat) =~= hex_digits((v / 16) as nat, (16 - k - 1) as nat).push(c));
        assert(hex_digits(v as nat, (16 - k) as nat) + d0 =~= hex_digits((v / 16) as nat, (16 - k - 1) as nat) + digits@);
        v = v / 16;
        k += 1;
    }
    assert(hex_digits(v as nat, 0) + digits@ =~= digits@);
    digits
}

/// Stable cache filename for a URL's preview image — FNV-1a hex (no crypto dep
/// needed; we just need a deterministic, filesystem-safe name per URL).
pub fn preview_cache_path(dir: &str, url: &str) -> (r: String)
    ensures
        r@ == joined_path(dir@, hex_digits(fnv1a(url.spec_bytes(), url.spec_bytes().len()) as nat, 16) + ".png"@),
{
    let bytes = url.as_bytes();
    let mut h: u64 = FNV_OFFSET;
    let mut i: usize = 0;
    while i < bytes.len()
        invariant
            i <= bytes@.len(),
            bytes@ == url.spec_bytes(),
            h == fnv1a(bytes@, i as nat),
        decreases bytes.len() - i,
    {
        h = h ^ (bytes[i] as u64);
        h = h.wrapping_mul(FNV_PRIME);
        i += 1;
    }
    let mut name = hex16(h);
    append_chars(&mut name, &chars_of(".png"));
    let n = string_of(name.as_slice());
    path_join(dir, n.as_str())
}

} // verus!
