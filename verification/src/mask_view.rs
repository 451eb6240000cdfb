//! Display-only masking for screensharing and sensitive sources. Never changes
//! stored or pasted text — only how an entry is rendered.
use vstd::prelude::*;
use crate::notes_view::string_views;
use crate::text::{chars_eq, chars_of, slice_chars, string_of};

verus! {

#[verifier::external_type_specification]
#[verifier::external_body]
pub struct ExRegex(regex::Regex);

/// `Regex::new(pattern)` succeeds: the pattern is valid and within the
/// default size limit.
pub uninterp spec fn regex_compiles(pattern: Seq<char>) -> bool;

/// `Regex::is_match` of the regex compiled from `pattern` on `haystack`: some
/// part of the haystack matches.
pub uninterp spec fn regex_is_match(pattern: Seq<char>, haystack: Seq<char>) -> bool;

/// A compiled regular expression together with the pattern it was compiled
/// from. Only `compile_pattern` makes one.
pub struct Pattern {
    source: String,
    re: regex::Regex,
}

impl Pattern {
    /// The pattern text.
    pub closed spec fn source(&self) -> Seq<char> {
        self.source@
    }
}

/// Calls `regex::Regex::new(pattern)`: `Some` holding the compiled regex and
/// its pattern exactly when compilation succeeds.
#[verifier::external_body]
fn compile_pattern(pattern: &str) -> (r: Option<Pattern>)
    ensures
        r is Some <==> regex_compiles(pattern@),
        r matches Some(p) ==> p.source() == pattern@,
{
    match regex::Regex::new(pattern) {
        Ok(re) => Some(Pattern { source: pattern.to_string(), re }),
        Err(_) => None,
    }
}

/// Calls `regex::Regex::is_match(haystack)` on the compiled pattern.
#[verifier::external_body]
fn pattern_matches(p: &Pattern, haystack: &str) -> (r: bool)
    ensures
        r == regex_is_match(p.source(), haystack@),
{
    p.re.is_match(haystack)
}

// ---------------------------------------------------------------------------
// Rendering
// ---------------------------------------------------------------------------

pub open spec fn bullets(n: nat) -> Seq<char> {
    Seq::new(n, |i: int| '•')
}

/// The first `visible` characters then at most 12 bullets; text no longer than
/// `visible` becomes bullets only (at least one).
pub open spec fn mask_render_spec(text: Seq<char>, visible: int) -> Seq<char> {
    let n = text.len() as int;
    if n <= visible {
        bullets(if n >= 1 {
            n as nat
        } else {
            1
        })
    } else {
        text.take(visible) + bullets(
            if n - visible <= 12 {
                (n - visible) as nat
            } else {
                12
            },
        )
    }
}

fn push_bullets(out: &mut Vec<char>, n: usize)
    ensures
        final(out)@ == old(out)@ + bullets(n as nat),
{
    let ghost o = out@;
    let mut i: usize = 0;
    while i < n
        invariant
            i <= n,
            out@ == o + bullets(i as nat),
        decreases n - i,
    {
        out.push('•');
        assert(o + bullets((i + 1) as nat) =~= (o + bullets(i as nat)).push('•'));
        i += 1;
    }
}

/// First `visible` chars of `text` then capped bullets. Text no longer than
/// `visible` is fully masked (min one bullet). Unicode-safe (operates on chars).
pub fn mask_render(text: &str, visible: usize) -> (r: String)
    ensures
        r@ == mask_render_spec(text@, visible as int),
{
    let chars = chars_of(text);
    let n = chars.len();
    let mut out: Vec<char> = Vec::new();
    if n <= visible {
        push_bullets(&mut out, if n >= 1 { n } else { 1 });
        assert(out@ =~= mask_render_spec(text@, visible as int));
        return string_of(out.as_slice());
    }
    out = slice_chars(&chars, 0, visible);
    let k = if n - visible <= 12 { n - visible } else { 12 };
    push_bullets(&mut out, k);
    assert(out@ =~= mask_render_spec(text@, visible as int));
    string_of(out.as_slice())
}

/// A masked rendering never shows more than the first `visible` characters of
/// the text, never grows past `visible + 12` characters, and is never empty.
pub proof fn law_mask_hides_tail(text: Seq<char>, visible: int, i: int)
    requires
        visible >= 0,
    ensures
        1 <= mask_render_spec(text, visible).len() <= visible + 12 || (text.len() <= visible
            && mask_render_spec(text, visible).len() == if text.len() >= 1 {
            text.len()
        } else {
            1
        }),
        0 <= i < mask_render_spec(text, visible).len() ==> (mask_render_spec(text, visible)[i]
            == '•' || (i < visible && i < text.len() && mask_render_spec(text, visible)[i] == text[i])),
{
}

// ---------------------------------------------------------------------------
// Rules
// ---------------------------------------------------------------------------

/// Masking rules for one refresh. Invalid regexes are dropped.
pub struct MaskRules {
    pub screenshare: bool,
    pub apps: Vec<String>,
    pub patterns: Vec<Pattern>,
}

/// The patterns among the first `i` that compile, in order.
pub open spec fn compiling(patterns: Seq<Seq<char>>, i: nat) -> Seq<Seq<char>>
    decreases i,
{
    if i == 0 {
        seq![]
    } else {
        let r = compiling(patterns, (i - 1) as nat);
        if regex_compiles(patterns[i - 1]) {
            r.push(patterns[i - 1])
        } else {
            r
        }
    }
}

pub open spec fn sources(ps: Seq<Pattern>) -> Seq<Seq<char>> {
    ps.map_values(|p: Pattern| p.source())
}

impl MaskRules {
    pub fn build(apps: &[String], patterns: &[String], screenshare: bool) -> (r: MaskRules)
        ensures
            r.screenshare == screenshare,
            string_views(r.apps@) == string_views(apps@),
            sources(r.patterns@) == compiling(string_views(patterns@), patterns@.len()),
    {
        let mut ps: Vec<Pattern> = Vec::new();
        let mut i: usize = 0;
        while i < patterns.len()
            invariant
                i <= patterns@.len(),
                sources(ps@) == compiling(string_views(patterns@), i as nat),
            decreases patterns.len() - i,
        {
            assert(string_views(patterns@)[i as int] == patterns@[i as int]@);
            match compile_pattern(patterns[i].as_str()) {
                Some(p) => {
                    let ghost s0 = sources(ps@);
                    ps.push(p);
                    assert(sources(ps@) =~= s0.push(string_views(patterns@)[i as int]));
                },
                None => {},
            }
            i += 1;
        }
        let mut a: Vec<String> = Vec::new();
        let mut j: usize = 0;
        while j < apps.len()
            invariant
                j <= apps@.len(),
                string_views(a@) == string_views(apps@).take(j as int),
            decreases apps.len() - j,
        {
            let ghost a0 = string_views(a@);
            let s = apps[j].clone();
            a.push(s);
            assert(string_views(a@) =~= a0.push(s@));
            assert(string_views(apps@).take(j + 1) =~= string_views(apps@).take(j as int).push(
                apps@[j as int]@,
            ));
            j += 1;
        }
        assert(string_views(apps@).take(apps@.len() as int) =~= string_views(apps@));
        MaskRules { screenshare, apps: a, patterns: ps }
    }
}

/// Masked: screenshare is on, the source app is listed, or a pattern matches.
pub open spec fn should_mask_spec(
    screenshare: bool,
    apps: Seq<Seq<char>>,
    patterns: Seq<Seq<char>>,
    app_name: Option<Seq<char>>,
    full_text: Seq<char>,
) -> bool {
    screenshare || (match app_name {
        Some(a) => apps.contains(a),
        None => false,
    }) || exists|k: int| 0 <= k < patterns.len() && regex_is_match(patterns[k], full_text)
}

/// An entry is masked if screenshare is on, its source app is in `apps`, or its
/// text matches any pattern.
pub fn should_mask(rules: &MaskRules, app_name: Option<&str>, full_text: &str) -> (r: bool)
    ensures
        r == should_mask_spec(
            rules.screenshare,
            string_views(rules.apps@),
            sources(rules.patterns@),
            match app_name {
                Some(a) => Some(a@),
                None => None,
            },
            full_text@,
        ),
{
    if rules.screenshare {
        return true;
    }
    match app_name {
        Some(a) => {
            let av = chars_of(a);
            let mut i: usize = 0;
            while i < rules.apps.len()
                invariant
                    i <= rules.apps@.len(),
                    av@ == a@,
                    app_name == Some(a),
                    forall|j: int| 0 <= j < i ==> string_views(rules.apps@)[j] != a@,
                decreases rules.apps.len() - i,
            {
                assert(string_views(rules.apps@)[i as int] == rules.apps@[i as int]@);
                if chars_eq(&chars_of(rules.apps[i].as_str()), &av) {
                    assert(string_views(rules.apps@)[i as int] == a@);
                    assert(string_views(rules.apps@).contains(a@));
                    return true;
                }
                i += 1;
            }
        },
        None => {},
    }
    let mut k: usize = 0;
    while k < rules.patterns.len()
        invariant
            k <= rules.patterns@.len(),
            forall|j: int| 0 <= j < k ==> !regex_is_match(sources(rules.patterns@)[j], full_text@),
        decreases rules.patterns.len() - k,
    {
        assert(sources(rules.patterns@)[k as int] == rules.patterns@[k as int].source());
        if pattern_matches(&rules.patterns[k], full_text) {
            return true;
        }
        k += 1;
    }
    false
}

} // verus!
