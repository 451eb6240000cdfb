//! Small labels of the launcher's rows: kind glyphs, line-count badges,
//! singular/plural counts, recurrence badges and one-line titles.
use vstd::prelude::*;
use crate::clip::Kind;
use crate::notes_view::first_nonblank;
use crate::num::{dec, fmt_i64};
use crate::tasks::{Recur, RecurUnit};
use crate::text::{
    append_chars, chars_of, lines, lines_exec, slice_chars, string_of, trim, trim_exec, views,
};

verus! {

pub open spec fn glyph_spec(kind: Kind) -> Seq<char> {
    match kind {
        Kind::Link => "🔗"@,
        Kind::Color => "🎨"@,
        Kind::Email => "✉️"@,
        Kind::Image => "🖼️"@,
        Kind::File => "📁"@,
        Kind::Text | Kind::Rtf | Kind::Html => "📄"@,
    }
}

/// The glyph shown before a row of the given kind.
pub fn type_glyph(kind: &Kind) -> (r: &'static str)
    ensures
        r@ == glyph_spec(*kind),
{
    match kind {
        Kind::Link => "🔗",
        Kind::Color => "🎨",
        Kind::Email => "✉️",
        Kind::Image => "🖼️",
        Kind::File => "📁",
        Kind::Text | Kind::Rtf | Kind::Html => "📄",
    }
}

/// Number of lines among the first `i` that are not blank once trimmed.
pub open spec fn nonblank_count(ls: Seq<Seq<char>>, i: nat) -> nat
    decreases i,
{
    if i == 0 {
        0
    } else {
        nonblank_count(ls, (i - 1) as nat) + if trim(ls[i - 1]).len() > 0 {
            1nat
        } else {
            0nat
        }
    }
}

pub open spec fn line_badge_spec(text: Seq<char>) -> Seq<char> {
    let n = nonblank_count(lines(text), lines(text).len());
    if n > 1 {
        dec(n as int) + " lines"@
    } else {
        seq![]
    }
}

/// A row badge like "3 lines" when the text has more than one non-empty line.
pub fn line_badge(full_text: &str) -> (r: String)
    ensures
        r@ == line_badge_spec(full_text@),
{
    let ls = lines_exec(&chars_of(full_text));
    let mut n: usize = 0;
    let mut i: usize = 0;
    while i < ls.len()
        invariant
            i <= ls@.len(),
            views(ls@) == lines(full_text@),
            n == nonblank_count(views(ls@), i as nat),
            n <= i,
        decreases ls.len() - i,
    {
        assert(views(ls@)[i as int] == ls@[i as int]@);
        if trim_exec(&ls[i]).len() > 0 {
            n += 1;
        }
        i += 1;
    }
    if n > 1 {
        let mut out = crate::num::fmt_u64(n as u64);
        append_chars(&mut out, &chars_of(" lines"));
        string_of(out.as_slice())
    } else {
        String::new()
    }
}

pub open spec fn plural_spec(n: int, one: Seq<char>, many: Seq<char>) -> Seq<char> {
    if n == 1 {
        "1 "@ + one
    } else {
        dec(n) + " "@ + many
    }
}

/// "1 line" / "3 lines" — a naive `{n} lines` printed "1 lines".
pub fn plural(n: i64, one: &str, many: &str) -> (r: String)
    ensures
        r@ == plural_spec(n as int, one@, many@),
{
    if n == 1 {
        let mut out = chars_of("1 ");
        append_chars(&mut out, &chars_of(one));
        string_of(out.as_slice())
    } else {
        let mut out = fmt_i64(n);
        append_chars(&mut out, &chars_of(" "));
        append_chars(&mut out, &chars_of(many));
        string_of(out.as_slice())
    }
}

pub open spec fn unit_suffix(u: RecurUnit) -> Seq<char> {
    match u {
        RecurUnit::Day => "d"@,
        RecurUnit::Week => "w"@,
        RecurUnit::Month => "mo"@,
        RecurUnit::Year => "y"@,
    }
}

pub open spec fn recur_badge_spec(recur: Option<Recur>) -> Seq<char> {
    match recur {
        Some(r) => "↻"@ + dec(r.n as int) + unit_suffix(r.unit),
        None => seq![],
    }
}

/// `↻2w`-style badge of a recurring task; empty when it does not recur.
pub fn recur_badge(recur: Option<Recur>) -> (r: String)
    ensures
        r@ == recur_badge_spec(recur),
{
    match recur {
        Some(rc) => {
            let u = match rc.unit {
                RecurUnit::Day => "d",
                RecurUnit::Week => "w",
                RecurUnit::Month => "mo",
                RecurUnit::Year => "y",
            };
            let mut out = chars_of("↻");
            append_chars(&mut out, &fmt_i64(rc.n as i64));
            append_chars(&mut out, &chars_of(u));
            string_of(out.as_slice())
        },
        None => String::new(),
    }
}

pub open spec fn truncate_spec(s: Seq<char>, n: int) -> Seq<char> {
    match first_nonblank(lines(s)) {
        Some(line) => if line.len() <= n {
            line
        } else {
            line.take(n)
        },
        None => "(whitespace)"@,
    }
}

/// The first non-blank line of `s`, trimmed, cut to `n` characters;
/// `(whitespace)` when every line is blank.
pub fn truncate(s: &str, n: usize) -> (r: String)
    ensures
        r@ == truncate_spec(s@, n as int),
{
    let ls = lines_exec(&chars_of(s));
    let mut i: usize = 0;
    assert(views(ls@).skip(0) =~= views(ls@));
    while i < ls.len()
        invariant
            i <= ls@.len(),
            views(ls@) == lines(s@),
            first_nonblank(views(ls@)) == first_nonblank(views(ls@).skip(i as int)),
        decreases ls.len() - i,
    {
        let t = trim_exec(&ls[i]);
        assert(views(ls@).skip(i as int)[0] == ls@[i as int]@);
        assert(views(ls@).skip(i as int).drop_first() =~= views(ls@).skip(i + 1));
        if t.len() > 0 {
            if t.len() <= n {
                return string_of(t.as_slice());
            } else {
                return string_of(slice_chars(&t, 0, n).as_slice());
            }
        }
        i += 1;
    }
    assert(views(ls@).skip(i as int) =~= Seq::<Seq<char>>::empty());
    String::from_str("(whitespace)")
}

} // verus!
