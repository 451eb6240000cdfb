//! The text half of colour swatches: `#RGB` / `#RRGGBB` hex colours and the
//! `name( … )` call syntax of `rgb()` / `hsl()`. The numbers inside a call are
//! read and converted by the caller.
use vstd::prelude::*;
use vstd::string::StrSliceExecFns;
use crate::notes_view::string_views;
use crate::text::{
    ascii_lower, ascii_lowercase, byte_len, char_at_byte, char_index, char_index_exec, chars_of,
    is_char_boundary, lead_ws_exec, slice_chars, split_exec, split_on, starts_with,
    starts_with_exec, str_byte_len, string_of, trail_ws_exec, trim, trim_exec, views,
};

verus! {

/// Value of a hexadecimal digit.
pub open spec fn hex_val(c: char) -> Option<int> {
    if '0' <= c <= '9' {
        Some(c as int - 48)
    } else if 'a' <= c <= 'f' {
        Some(c as int - 87)
    } else if 'A' <= c <= 'F' {
        Some(c as int - 55)
    } else {
        None
    }
}

/// `u8::from_str_radix(s, 16)` for a text of one or two characters: an
/// optional `+`, then one or two hex digits.
pub open spec fn radix16(s: Seq<char>) -> Option<int> {
    let d = if s.len() > 0 && s[0] == '+' {
        s.drop_first()
    } else {
        s
    };
    if d.len() == 1 {
        hex_val(d[0])
    } else if d.len() == 2 {
        match (hex_val(d[0]), hex_val(d[1])) {
            (Some(a), Some(b)) => Some(16 * a + b),
            _ => None,
        }
    } else {
        None
    }
}

/// One digit group at bytes `b1..b2` of `hex`: `None` when the range would
/// cut a character (the caller panics there), else its value if it parses.
pub open spec fn group(hex: Seq<char>, b1: int, b2: int) -> Option<Option<int>> {
    if is_char_boundary(hex, b1) && is_char_boundary(hex, b2) {
        Some(radix16(hex.subrange(char_index(hex, b1), char_index(hex, b2))))
    } else {
        None
    }
}

/// Reading three groups left to right, stopping at the first that does not
/// parse: `None` when a range cuts a character before that.
pub open spec fn three_groups(hex: Seq<char>, w: int) -> Option<Option<(int, int, int)>> {
    match group(hex, 0, w) {
        None => None,
        Some(None) => Some(None),
        Some(Some(r)) => match group(hex, w, 2 * w) {
            None => None,
            Some(None) => Some(None),
            Some(Some(g)) => match group(hex, 2 * w, 3 * w) {
                None => None,
                Some(None) => Some(None),
                Some(Some(b)) => Some(Some((r, g, b))),
            },
        },
    }
}

/// `#RGB` (each digit doubled, the CSS rule, i.e. times 17) or `#RRGGBB`, by
/// the byte length of `hex`; `None` for other lengths or digits that do not
/// parse; the outer `None` where a digit group would cut a character.
pub open spec fn hex_outcome(hex: Seq<char>) -> Option<Option<(int, int, int)>> {
    let n = byte_len(hex);
    if n == 3 {
        match three_groups(hex, 1) {
            Some(Some((r, g, b))) => Some(Some((17 * r, 17 * g, 17 * b))),
            other => other,
        }
    } else if n == 6 {
        three_groups(hex, 2)
    } else {
        Some(None)
    }
}

proof fn lemma_hex_val_bound(c: char)
    ensures
        hex_val(c) matches Some(v) ==> 0 <= v < 16,
{
}

/// A group one byte wide holds at most one character, so its value is a
/// single hex digit.
proof fn lemma_unit_group(hex: Seq<char>, b: int, v: int)
    requires
        group(hex, b, b + 1) == Some(Some(v)),
    ensures
        0 <= v < 16,
{
    let k1 = char_index(hex, b);
    let k2 = char_index(hex, b + 1);
    assert(char_at_byte(hex, b, k1));
    assert(char_at_byte(hex, b + 1, k2));
    if k2 <= k1 {
        if k2 < k1 {
            crate::text::lemma_byte_len_take_mono(hex, k2, k1);
        }
        assert(false);
    }
    if k2 > k1 + 1 {
        crate::text::lemma_byte_len_take_mono(hex, k1, k1 + 1);
        crate::text::lemma_byte_len_take_mono(hex, k1 + 1, k2);
        assert(false);
    }
    let s = hex.subrange(k1, k2);
    assert(s.len() == 1);
    lemma_hex_val_bound(s[0]);
}

fn hex_val_exec(c: char) -> (r: Option<u8>)
    ensures
        match r {
            Some(v) => hex_val(c) == Some(v as int),
            None => hex_val(c) is None,
        },
{
    if '0' <= c && c <= '9' {
        Some(((c as u32) - 48) as u8)
    } else if 'a' <= c && c <= 'f' {
        Some(((c as u32) - 87) as u8)
    } else if 'A' <= c && c <= 'F' {
        Some(((c as u32) - 55) as u8)
    } else {
        None
    }
}

fn radix16_exec(s: &Vec<char>) -> (r: Option<u8>)
    ensures
        match r {
            Some(v) => radix16(s@) == Some(v as int),
            None => radix16(s@) is None,
        },
{
    let d = if s.len() > 0 && s[0] == '+' {
        let n = s.len();
        slice_chars(s, 1, n)
    } else {
        slice_chars(s, 0, s.len())
    };
    assert(d@ =~= (if s@.len() > 0 && s@[0] == '+' { s@.drop_first() } else { s@ }));
    if d.len() == 1 {
        hex_val_exec(d[0])
    } else if d.len() == 2 {
        match (hex_val_exec(d[0]), hex_val_exec(d[1])) {
            (Some(a), Some(b)) => Some(16 * a + b),
            _ => None,
        }
    } else {
        None
    }
}

fn group_exec(hv: &Vec<char>, b1: usize, b2: usize) -> (r: Option<Option<u8>>)
    requires
        b1 <= b2,
    ensures
        match r {
            None => group(hv@, b1 as int, b2 as int) is None,
            Some(None) => group(hv@, b1 as int, b2 as int) == Some(None::<int>),
            Some(Some(v)) => group(hv@, b1 as int, b2 as int) == Some(Some(v as int)),
        },
{
    match (char_index_exec(hv, b1), char_index_exec(hv, b2)) {
        (Some(k1), Some(k2)) => {
            proof {
                if k1 > k2 {
                    crate::text::lemma_byte_len_take_mono(hv@, k2 as int, k1 as int);
                }
            }
            Some(radix16_exec(&slice_chars(hv, k1, k2)))
        },
        _ => None,
    }
}

fn three_groups_exec(hv: &Vec<char>, w: usize) -> (r: Option<Option<(u8, u8, u8)>>)
    requires
        w <= 2,
    ensures
        match r {
            None => three_groups(hv@, w as int) is None,
            Some(None) => three_groups(hv@, w as int) == Some(None::<(int, int, int)>),
            Some(Some((a, b, c))) => three_groups(hv@, w as int) == Some(Some((a as int, b as int, c as int))),
        },
{
    let r = match group_exec(hv, 0, w) {
        None => {
            return None;
        },
        Some(None) => {
            return Some(None);
        },
        Some(Some(v)) => v,
    };
    let g = match group_exec(hv, w, 2 * w) {
        None => {
            return None;
        },
        Some(None) => {
            return Some(None);
        },
        Some(Some(v)) => v,
    };
    let b = match group_exec(hv, 2 * w, 3 * w) {
        None => {
            return None;
        },
        Some(None) => {
            return Some(None);
        },
        Some(Some(v)) => v,
    };
    Some(Some((r, g, b)))
}

/// The hex colour `hex` (the text after `#`) as `(r, g, b)`, with the outer
/// `None` where a digit group would cut a character of `hex`.
pub fn parse_hex_checked(hex: &str) -> (r: Option<Option<(u8, u8, u8)>>)
    requires
        byte_len(hex@) <= usize::MAX,
    ensures
        match r {
            None => hex_outcome(hex@) is None,
            Some(None) => hex_outcome(hex@) == Some(None::<(int, int, int)>),
            Some(Some((a, b, c))) => hex_outcome(hex@) == Some(Some((a as int, b as int, c as int))),
        },
{
    let hv = chars_of(hex);
    let n = str_byte_len(hex);
    if n == 3 {
        match three_groups_exec(&hv, 1) {
            Some(Some((r, g, b))) => {
                proof {
                    lemma_unit_group(hv@, 0, r as int);
                    lemma_unit_group(hv@, 1, g as int);
                    lemma_unit_group(hv@, 2, b as int);
                }
                Some(Some((17 * r, 17 * g, 17 * b)))
            },
            other => other,
        }
    } else if n == 6 {
        three_groups_exec(&hv, 2)
    } else {
        Some(None)
    }
}

/// `#RGB` (each digit doubled, the CSS rule) or `#RRGGBB`.
pub fn parse_hex(hex: &str) -> (r: Option<(u8, u8, u8)>)
    requires
        byte_len(hex@) <= usize::MAX,
        hex_outcome(hex@) is Some,
    ensures
        match r {
            None => hex_outcome(hex@) == Some(None::<(int, int, int)>),
            Some((a, b, c)) => hex_outcome(hex@) == Some(Some((a as int, b as int, c as int))),
        },
{
    match parse_hex_checked(hex) {
        Some(v) => v,
        None => None,
    }
}

/// The argument text of `name( … )` in `s` (already lowercased): what lies
/// between the parentheses, after `name` and any whitespace.
pub open spec fn strip_call_spec(s: Seq<char>, name: Seq<char>) -> Option<Seq<char>> {
    if starts_with(s, name) {
        let t = trim(s.skip(name.len() as int));
        if t.len() >= 2 && t[0] == '(' && t[t.len() - 1] == ')' {
            Some(t.subrange(1, t.len() - 1))
        } else {
            None
        }
    } else {
        None
    }
}

/// Where the argument text of `name( … )` lies in `s`: the character range
/// strictly inside the parentheses.
fn call_bounds(sv: &Vec<char>, nv: &Vec<char>) -> (r: Option<(usize, usize)>)
    ensures
        match r {
            Some((a, b)) => a <= b <= sv@.len() && strip_call_spec(sv@, nv@) == Some(
                sv@.subrange(a as int, b as int),
            ),
            None => strip_call_spec(sv@, nv@) is None,
        },
{
    if !starts_with_exec(sv, nv) {
        return None;
    }
    let n = sv.len();
    let after = slice_chars(sv, nv.len(), n);
    let lw = lead_ws_exec(&after);
    proof {
        crate::text::lemma_lead_ws_bound(after@);
        crate::text::lemma_trail_ws_bound(after@.skip(lw as int));
    }
    let rest = slice_chars(&after, lw, after.len());
    let tw = trail_ws_exec(&rest);
    let t_start = nv.len() + lw;
    let t_end = n - tw;
    assert(after@ =~= sv@.skip(nv@.len() as int));
    assert(rest@ =~= after@.skip(lw as int));
    let t = trim_exec(&after);
    assert(t@ == trim(sv@.skip(nv@.len() as int)));
    assert(t@ =~= sv@.subrange(t_start as int, t_end as int));
    if t.len() >= 2 && t[0] == '(' && t[t.len() - 1] == ')' {
        assert(sv@.subrange(t_start + 1, t_end - 1) =~= t@.subrange(1, t@.len() - 1));
        Some((t_start + 1, t_end - 1))
    } else {
        None
    }
}

/// `"rgb(1, 2, 3)"` + `"rgb"` → `"1, 2, 3"`. Input is already lowercased.
pub fn strip_call<'a>(s: &'a str, name: &str) -> (r: Option<&'a str>)
    ensures
        match r {
            Some(a) => strip_call_spec(s@, name@) == Some(a@),
            None => strip_call_spec(s@, name@) is None,
        },
{
    let sv = chars_of(s);
    let nv = chars_of(name);
    match call_bounds(&sv, &nv) {
        Some((a, b)) => Some(s.substring_char(a, b)),
        None => None,
    }
}

/// `s` with every trailing `c` removed (`str::trim_end_matches`).
pub open spec fn trim_end_char(s: Seq<char>, c: char) -> Seq<char>
    decreases s.len(),
{
    if s.len() > 0 && s.last() == c {
        trim_end_char(s.drop_last(), c)
    } else {
        s
    }
}

fn trim_end_char_exec(s: &Vec<char>, c: char) -> (r: Vec<char>)
    ensures
        r@ == trim_end_char(s@, c),
{
    let mut n = s.len();
    assert(s@.take(n as int) =~= s@);
    while n > 0 && s[n - 1] == c
        invariant
            n <= s@.len(),
            trim_end_char(s@.take(n as int), c) == trim_end_char(s@, c),
        decreases n,
    {
        assert(s@.take(n as int).drop_last() =~= s@.take(n - 1));
        n -= 1;
    }
    let r = slice_chars(s, 0, n);
    assert(r@ =~= s@.take(n as int));
    r
}

/// One field of a colour call's argument list: trimmed, trailing `%` signs
/// dropped, trimmed again.
pub open spec fn number_field(p: Seq<char>) -> Seq<char> {
    trim(trim_end_char(trim(p), '%'))
}

/// The comma-separated fields of a colour call's argument list, each ready
/// to be read as a number.
pub open spec fn number_fields(args: Seq<char>) -> Seq<Seq<char>> {
    split_on(args, ',').map_values(|p: Seq<char>| number_field(p))
}

/// The three ways a colour can be written.
pub enum ColorSyntax {
    /// `#` followed by this text.
    Hex(String),
    /// `rgb( … )` with these fields.
    Rgb(Vec<String>),
    /// `hsl( … )` with these fields.
    Hsl(Vec<String>),
    /// None of the above.
    Plain,
}

pub open spec fn rgb_name() -> Seq<char> {
    seq!['r', 'g', 'b']
}

pub open spec fn hsl_name() -> Seq<char> {
    seq!['h', 's', 'l']
}

/// Which colour notation `text` uses, read the way a swatch is drawn: the
/// text is trimmed; a leading `#` means hex; otherwise `rgb( … )` or
/// `hsl( … )` in any ASCII case.
pub open spec fn syntax_matches(text: Seq<char>, r: ColorSyntax) -> bool {
    let t = trim(text);
    let lower = ascii_lower(t);
    if t.len() > 0 && t[0] == '#' {
        r matches ColorSyntax::Hex(h) && h@ == t.drop_first()
    } else if let Some(a) = strip_call_spec(lower, rgb_name()) {
        r matches ColorSyntax::Rgb(v) && string_views(v@) == number_fields(a)
    } else if let Some(a) = strip_call_spec(lower, hsl_name()) {
        r matches ColorSyntax::Hsl(v) && string_views(v@) == number_fields(a)
    } else {
        r is Plain
    }
}

fn fields_exec(args: &Vec<char>) -> (r: Vec<String>)
    ensures
        string_views(r@) == number_fields(args@),
{
    let parts = split_exec(args, ',');
    let mut r: Vec<String> = Vec::new();
    let mut i: usize = 0;
    while i < parts.len()
        invariant
            i <= parts@.len(),
            views(parts@) == split_on(args@, ','),
            string_views(r@) == number_fields(args@).take(i as int),
        decreases parts.len() - i,
    {
        let a = trim_exec(&parts[i]);
        let b = trim_end_char_exec(&a, '%');
        let c = trim_exec(&b);
        assert(views(parts@)[i as int] == parts@[i as int]@);
        let f = string_of(c.as_slice());
        let ghost r0 = string_views(r@);
        r.push(f);
        assert(string_views(r@) =~= r0.push(f@));
        assert(number_fields(args@).take(i + 1) =~= number_fields(args@).take(i as int).push(
            number_field(split_on(args@, ',')[i as int]),
        ));
        i += 1;
    }
    assert(number_fields(args@).take(parts@.len() as int) =~= number_fields(args@));
    r
}

/// Reads which colour notation `text` uses and the pieces a swatch is drawn
/// from; reading the numbers themselves is left to the caller.
pub fn color_syntax(text: &str) -> (r: ColorSyntax)
    ensures
        syntax_matches(text@, r),
{
    let tv = chars_of(text);
    let t = trim_exec(&tv);
    if t.len() > 0 && t[0] == '#' {
        let n = t.len();
        let h = slice_chars(&t, 1, n);
        assert(h@ =~= t@.drop_first());
        return ColorSyntax::Hex(string_of(h.as_slice()));
    }
    let lower = ascii_lowercase(&t);
    let rgb: Vec<char> = vec!['r', 'g', 'b'];
    assert(rgb@ =~= rgb_name());
    if let Some((a, b)) = call_bounds(&lower, &rgb) {
        let args = slice_chars(&lower, a, b);
        return ColorSyntax::Rgb(fields_exec(&args));
    }
    let hsl: Vec<char> = vec!['h', 's', 'l'];
    assert(hsl@ =~= hsl_name());
    if let Some((a, b)) = call_bounds(&lower, &hsl) {
        let args = slice_chars(&lower, a, b);
        return ColorSyntax::Hsl(fields_exec(&args));
    }
    ColorSyntax::Plain
}

/// A two-digit group is read most significant digit first, as
/// `u8::from_str_radix` reads it: its value is sixteen times that of its first
/// digit plus that of its second, a leading `0` leaves a single digit's value,
/// and a leading `+` changes nothing.
pub proof fn law_radix16_two_digits(a: char, b: char)
    requires
        hex_val(a) is Some,
        hex_val(b) is Some,
    ensures
        radix16(seq![a, b]) == Some(16 * (radix16(seq![a])->0) + radix16(seq![b])->0),
        radix16(seq![a, b]) == Some(16 * (hex_val(a)->0) + hex_val(b)->0),
        radix16(seq!['0', b]) == radix16(seq![b]),
        radix16(seq!['+', a, b]) == radix16(seq![a, b]),
        0 <= radix16(seq![a, b])->0 < 256,
{
    assert(seq!['+', a, b].drop_first() =~= seq![a, b]);
}

/// Digit values: `0`–`9` are 0 to 9, and `a`–`f` and `A`–`F` are 10 to 15.
pub proof fn law_hex_digit_values(c: char)
    ensures
        '0' <= c <= '9' ==> radix16(seq![c]) == Some(c as int - '0' as int),
        'a' <= c <= 'f' ==> radix16(seq![c]) == Some(c as int - 'a' as int + 10),
        'A' <= c <= 'F' ==> radix16(seq![c]) == Some(c as int - 'A' as int + 10),
        !('0' <= c <= '9' || 'a' <= c <= 'f' || 'A' <= c <= 'F') ==> radix16(seq![c]) is None,
{
}

/// A group reads one or two digits, after an optional `+`: an empty text, a
/// lone `+` or three digits are no number.
pub proof fn law_radix16_width(s: Seq<char>)
    ensures
        s.len() == 0 ==> radix16(s) is None,
        (s.len() == 3 && s[0] != '+') ==> radix16(s) is None,
        s.len() > 3 ==> radix16(s) is None,
        s =~= seq!['+'] ==> radix16(s) is None,
{
}

} // verus!
