//! View-model helpers for notes: `[[wiki link]]` extraction, `#tag` extraction
//! and the title shown in the notes list.
use vstd::prelude::*;
use crate::text::{
    ascii_lower, ascii_lowercase, chars_eq, chars_of, find, find_exec, is_ascii_alnum, lemma_find,
    occurs_at, lines, lines_exec, slice_chars, starts_with, starts_with_exec, string_of, trim, trim_exec,
    views, words, words_exec,
};

verus! {

/// The character sequences held by a sequence of strings.
pub open spec fn string_views(v: Seq<String>) -> Seq<Seq<char>> {
    v.map_values(|s: String| s@)
}

pub open spec fn open_link() -> Seq<char> {
    seq!['[', '[']
}

pub open spec fn close_link() -> Seq<char> {
    seq![']', ']']
}

/// Scan `rest` for `[[name]]` links, adding each trimmed, non-empty, not yet
/// seen name to `acc`. An unclosed `[[` ends the scan.
pub open spec fn wiki_scan(rest: Seq<char>, acc: Seq<Seq<char>>) -> Seq<Seq<char>>
    decreases rest.len(),
{
    match find(rest, open_link()) {
        None => acc,
        Some(start) => {
            proof {
                lemma_find(rest, open_link());
            }
            let after = rest.skip(start + 2);
            match find(after, close_link()) {
                None => acc,
                Some(end) => {
                    proof {
                        lemma_find(after, close_link());
                    }
                    let name = trim(after.take(end));
                    let acc2 = if name.len() > 0 && !acc.contains(name) {
                        acc.push(name)
                    } else {
                        acc
                    };
                    wiki_scan(after.skip(end + 2), acc2)
                },
            }
        },
    }
}

/// The `[[Page Name]]` references of `body`: trimmed, deduplicated, in
/// first-seen order; empty `[[]]` and an unclosed `[[` are skipped.
pub open spec fn wiki_links_spec(body: Seq<char>) -> Seq<Seq<char>> {
    wiki_scan(body, seq![])
}

/// Vector membership of a character sequence.
fn has_chars(v: &Vec<Vec<char>>, x: &Vec<char>) -> (r: bool)
    ensures
        r == views(v@).contains(x@),
{
    let mut i: usize = 0;
    while i < v.len()
        invariant
            i <= v@.len(),
            forall|j: int| 0 <= j < i ==> views(v@)[j] != x@,
        decreases v.len() - i,
    {
        if chars_eq(&v[i], x) {
            assert(views(v@)[i as int] == x@);
            return true;
        }
        i += 1;
    }
    proof {
        if views(v@).contains(x@) {
            let j = choose|j: int| 0 <= j < views(v@).len() && views(v@)[j] == x@;
            assert(views(v@)[j] == x@);
        }
    }
    false
}

fn strings_of(v: &Vec<Vec<char>>) -> (r: Vec<String>)
    ensures
        string_views(r@) == views(v@),
{
    let mut r: Vec<String> = Vec::new();
    let mut i: usize = 0;
    while i < v.len()
        invariant
            i <= v@.len(),
            r@.len() == i,
            string_views(r@) == views(v@).take(i as int),
        decreases v.len() - i,
    {
        let ghost r0 = r@;
        let si = string_of(v[i].as_slice());
        assert(si@ == v@[i as int]@);
        r.push(si);
        assert(r@ == r0.push(si));
        assert(string_views(r@) =~= views(v@).take(i + 1)) by {
            assert forall|j: int| 0 <= j < i + 1 implies #[trigger] string_views(r@)[j]
                == views(v@).take(i + 1)[j] by {
                if j < i {
                    assert(string_views(r@)[j] == r0[j]@);
                    assert(string_views(r0)[j] == r0[j]@);
                }
            }
        }
        i += 1;
    }
    assert(views(v@).take(v@.len() as int) =~= views(v@));
    r
}

/// Extract `[[Page Name]]` references: trimmed, deduped, in first-seen order.
/// Empty `[[]]` and unclosed `[[` are skipped.
pub fn wiki_links(body: &str) -> (r: Vec<String>)
    ensures
        string_views(r@) == wiki_links_spec(body@),
{
    let open = vec!['[', '['];
    let close = vec![']', ']'];
    assert(open@ =~= open_link());
    assert(close@ =~= close_link());
    assert(open@.len() == 2 && close@.len() == 2);
    let mut out: Vec<Vec<char>> = Vec::new();
    let mut rest = chars_of(body);
    assert(views(out@) =~= Seq::<Seq<char>>::empty());
    loop
        invariant
            open@ == open_link(),
            close@ == close_link(),
            open@.len() == 2 && close@.len() == 2,
            wiki_scan(rest@, views(out@)) == wiki_links_spec(body@),
        ensures
            views(out@) == wiki_links_spec(body@),
        decreases rest@.len(),
    {
        let start = match find_exec(&rest, &open) {
            None => {
                break;
            },
            Some(s) => s,
        };
        assert(occurs_at(rest@, open@, start as int));
        let rn = rest.len();
        let after = slice_chars(&rest, start + 2, rn);
        assert(after@ =~= rest@.skip(start + 2));
        let end = match find_exec(&after, &close) {
            None => {
                break;
            },
            Some(e) => e,
        };
        let inner = slice_chars(&after, 0, end);
        assert(inner@ =~= after@.take(end as int));
        let name = trim_exec(&inner);
        if name.len() > 0 && !has_chars(&out, &name) {
            let ghost o = views(out@);
            out.push(name);
            assert(views(out@) =~= o.push(trim(after@.take(end as int))));
        }
        let next = slice_chars(&after, end + 2, after.len());
        assert(next@ =~= after@.skip(end + 2));
        rest = next;
    }
    strings_of(&out)
}

/// No name occurs twice and none is empty.
pub open spec fn distinct_nonempty(s: Seq<Seq<char>>) -> bool {
    &&& forall|i: int, j: int| 0 <= i < j < s.len() ==> s[i] != s[j]
    &&& forall|i: int| 0 <= i < s.len() ==> s[i].len() > 0
}

proof fn lemma_wiki_scan_distinct(rest: Seq<char>, acc: Seq<Seq<char>>)
    requires
        distinct_nonempty(acc),
    ensures
        distinct_nonempty(wiki_scan(rest, acc)),
    decreases rest.len(),
{
    match find(rest, open_link()) {
        None => {},
        Some(start) => {
            lemma_find(rest, open_link());
            let after = rest.skip(start + 2);
            match find(after, close_link()) {
                None => {},
                Some(end) => {
                    lemma_find(after, close_link());
                    let name = trim(after.take(end));
                    let acc2 = if name.len() > 0 && !acc.contains(name) {
                        acc.push(name)
                    } else {
                        acc
                    };
                    if name.len() > 0 && !acc.contains(name) {
                        assert forall|i: int, j: int| 0 <= i < j < acc2.len() implies acc2[i]
                            != acc2[j] by {
                            if j == acc.len() {
                                assert(acc2[j] == name);
                                assert(acc2[i] == acc[i]);
                            }
                        }
                    }
                    lemma_wiki_scan_distinct(after.skip(end + 2), acc2);
                },
            }
        },
    }
}

/// The links of a body never repeat a name and never hold an empty one.
pub proof fn law_wiki_links_distinct(body: Seq<char>)
    ensures
        distinct_nonempty(wiki_links_spec(body)),
{
    lemma_wiki_scan_distinct(body, seq![]);
}

// ---------------------------------------------------------------------------
// Tags
// ---------------------------------------------------------------------------

/// A character that may continue a tag: ASCII letter or digit, `_` or `-`.
pub open spec fn is_tag_char(c: char) -> bool {
    is_ascii_alnum(c) || c == '_' || c == '-'
}

/// Length of the longest prefix of `s` made of tag characters.
pub open spec fn tag_len(s: Seq<char>) -> nat
    decreases s.len(),
{
    if s.len() > 0 && is_tag_char(s[0]) {
        1 + tag_len(s.drop_first())
    } else {
        0
    }
}

/// The tag carried by a whitespace-separated token, if it starts with `#`:
/// the tag characters after the `#`, lowercased (possibly empty).
pub open spec fn token_tag(tok: Seq<char>) -> Option<Seq<char>> {
    if tok.len() > 0 && tok[0] == '#' {
        let after = tok.drop_first();
        Some(ascii_lower(after.take(tag_len(after) as int)))
    } else {
        None
    }
}

/// Add the tags of `toks[..i]`, in order, to a list without repeats.
pub open spec fn tags_upto(toks: Seq<Seq<char>>, i: nat) -> Seq<Seq<char>>
    decreases i,
{
    if i == 0 {
        seq![]
    } else {
        let acc = tags_upto(toks, (i - 1) as nat);
        match token_tag(toks[i - 1]) {
            Some(t) => if t.len() > 0 && !acc.contains(t) {
                acc.push(t)
            } else {
                acc
            },
            None => acc,
        }
    }
}

/// Distinct `#tag` tokens of `body`, lowercased, in first-seen order.
pub open spec fn note_tags_spec(body: Seq<char>) -> Seq<Seq<char>> {
    let toks = words(body);
    tags_upto(toks, toks.len())
}

proof fn lemma_tag_len(s: Seq<char>, i: int)
    requires
        0 <= i <= s.len(),
        forall|j: int| 0 <= j < i ==> is_tag_char(s[j]),
        i == s.len() || !is_tag_char(s[i]),
    ensures
        tag_len(s) == i,
    decreases i,
{
    if i > 0 {
        lemma_tag_len(s.drop_first(), i - 1);
    }
}

/// Tag characters at the start of `s`.
fn tag_len_exec(s: &Vec<char>, from: usize) -> (n: usize)
    requires
        from <= s@.len(),
    ensures
        from + n <= s@.len(),
        n == tag_len(s@.skip(from as int)),
{
    let mut i: usize = from;
    while i < s.len() && (is_ascii_alnum_exec(s[i]) || s[i] == '_' || s[i] == '-')
        invariant
            from <= i <= s@.len(),
            forall|j: int| from <= j < i ==> is_tag_char(s@[j]),
        decreases s.len() - i,
    {
        i += 1;
    }
    proof {
        lemma_tag_len(s@.skip(from as int), i - from);
    }
    i - from
}

fn is_ascii_alnum_exec(c: char) -> (r: bool)
    ensures
        r == is_ascii_alnum(c),
{
    ('a' <= c && c <= 'z') || ('A' <= c && c <= 'Z') || ('0' <= c && c <= '9')
}

/// Distinct `#tag` tokens anywhere in `body` (lowercased, first-seen order). A tag is
/// `#` followed by one or more of [A-Za-z0-9_-]; trailing punctuation is dropped. This
/// intentionally also picks up a task line's `#project`, unifying projects and tags.
pub fn note_tags(body: &str) -> (r: Vec<String>)
    ensures
        string_views(r@) == note_tags_spec(body@),
{
    let b = chars_of(body);
    let toks = words_exec(&b);
    let mut out: Vec<Vec<char>> = Vec::new();
    let mut i: usize = 0;
    assert(views(out@) =~= tags_upto(views(toks@), 0));
    while i < toks.len()
        invariant
            i <= toks@.len(),
            views(toks@) == words(body@),
            views(out@) == tags_upto(views(toks@), i as nat),
        decreases toks.len() - i,
    {
        let tok = &toks[i];
        assert(tok@ == views(toks@)[i as int]);
        if tok.len() > 0 && tok[0] == '#' {
            let n = tag_len_exec(tok, 1);
            assert(tok@.skip(1) =~= tok@.drop_first());
            let raw = slice_chars(tok, 1, 1 + n);
            assert(raw@ =~= tok@.drop_first().take(n as int));
            let tag = ascii_lowercase(&raw);
            if tag.len() > 0 && !has_chars(&out, &tag) {
                let ghost o = views(out@);
                out.push(tag);
                assert(views(out@) =~= o.push(tag@));
            }
        }
        i += 1;
    }
    strings_of(&out)
}

/// The tags of a body never repeat and are never empty.
pub proof fn law_note_tags_distinct(body: Seq<char>)
    ensures
        distinct_nonempty(note_tags_spec(body)),
{
    let toks = words(body);
    lemma_tags_upto_distinct(toks, toks.len());
}

proof fn lemma_tags_upto_distinct(toks: Seq<Seq<char>>, i: nat)
    ensures
        distinct_nonempty(tags_upto(toks, i)),
    decreases i,
{
    if i > 0 {
        lemma_tags_upto_distinct(toks, (i - 1) as nat);
        let acc = tags_upto(toks, (i - 1) as nat);
        match token_tag(toks[i - 1]) {
            Some(t) => {
                if t.len() > 0 && !acc.contains(t) {
                    let acc2 = acc.push(t);
                    assert forall|a: int, b: int| 0 <= a < b < acc2.len() implies acc2[a]
                        != acc2[b] by {
                        if b == acc.len() {
                            assert(acc2[a] == acc[a]);
                        }
                    }
                }
            },
            None => {},
        }
    }
}

// ---------------------------------------------------------------------------
// List titles
// ---------------------------------------------------------------------------

/// The first line of `ls` that is non-empty once trimmed, trimmed.
pub open spec fn first_nonblank(ls: Seq<Seq<char>>) -> Option<Seq<char>>
    decreases ls.len(),
{
    if ls.len() == 0 {
        None
    } else if trim(ls[0]).len() > 0 {
        Some(trim(ls[0]))
    } else {
        first_nonblank(ls.drop_first())
    }
}

/// The title of a note in the notes list.
pub open spec fn note_list_title_spec(note_name: Seq<char>, body: Seq<char>) -> Seq<char> {
    let name = trim(note_name);
    let auto = name.len() == 0 || starts_with(name, "Note "@);
    if !auto {
        name
    } else {
        let line = match first_nonblank(lines(body)) {
            Some(l) => l,
            None => name,
        };
        if line.len() <= 60 {
            line
        } else {
            line.take(60)
        }
    }
}

fn first_nonblank_exec(ls: &Vec<Vec<char>>) -> (r: Option<Vec<char>>)
    ensures
        r matches Some(l) ==> first_nonblank(views(ls@)) == Some(l@),
        r is None ==> first_nonblank(views(ls@)) is None,
{
    let mut i: usize = 0;
    assert(views(ls@).skip(0) =~= views(ls@));
    while i < ls.len()
        invariant
            i <= ls@.len(),
            first_nonblank(views(ls@)) == first_nonblank(views(ls@).skip(i as int)),
        decreases ls.len() - i,
    {
        let t = trim_exec(&ls[i]);
        assert(views(ls@).skip(i as int)[0] == ls@[i as int]@);
        assert(views(ls@).skip(i as int).drop_first() =~= views(ls@).skip(i + 1));
        if t.len() > 0 {
            return Some(t);
        }
        i += 1;
    }
    None
}

/// A human title for the notes list: the page name, unless it's empty or an
/// auto-generated `Note <n>` capture name — then the first non-empty body line.
pub fn note_list_title(note_name: &str, body: &str) -> (r: String)
    ensures
        r@ == note_list_title_spec(note_name@, body@),
{
    let name = trim_exec(&chars_of(note_name));
    let auto = name.len() == 0 || starts_with_exec(&name, &chars_of("Note "));
    if !auto {
        return string_of(name.as_slice());
    }
    let ls = lines_exec(&chars_of(body));
    let line = match first_nonblank_exec(&ls) {
        Some(l) => l,
        None => name,
    };
    if line.len() <= 60 {
        string_of(line.as_slice())
    } else {
        string_of(slice_chars(&line, 0, 60).as_slice())
    }
}

/// A tag character is an ASCII letter or digit, `_` or `-`, and nothing else.
pub proof fn law_tag_chars(c: char)
    ensures
        is_tag_char(c) <==> ('a' <= c <= 'z' || 'A' <= c <= 'Z' || '0' <= c <= '9' || c == '_' || c
            == '-'),
{
}

/// A `#` token carries as its tag the whole run of letters, digits, `_` and
/// `-` after the `#`, lowercased, up to the first other character.
pub proof fn law_token_tag_run(w: Seq<char>, rest: Seq<char>)
    requires
        forall|j: int|
            0 <= j < w.len() ==> ('a' <= #[trigger] w[j] <= 'z' || 'A' <= w[j] <= 'Z' || '0' <= w[j]
                <= '9' || w[j] == '_' || w[j] == '-'),
        rest.len() > 0 ==> !('a' <= rest[0] <= 'z' || 'A' <= rest[0] <= 'Z' || '0' <= rest[0] <= '9'
            || rest[0] == '_' || rest[0] == '-'),
    ensures
        token_tag(seq!['#'] + w + rest) == Some(ascii_lower(w)),
{
    let tok = seq!['#'] + w + rest;
    let after = tok.drop_first();
    assert(after =~= w + rest);
    assert forall|j: int| 0 <= j < w.len() implies is_tag_char(after[j]) by {
        assert(after[j] == w[j]);
    }
    if rest.len() > 0 {
        assert(after[w.len() as int] == rest[0]);
    }
    lemma_tag_len(after, w.len() as int);
    assert(after.take(w.len() as int) =~= w);
}

} // verus!
