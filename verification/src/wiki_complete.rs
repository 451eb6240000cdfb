//! Caret-aware `[[wiki link]]` autocomplete for the note editor. Carets are
//! UTF-8 byte offsets, as the editor reports them.
use vstd::prelude::*;
use vstd::string::StrSliceExecFns;
use crate::notes_view::{open_link, string_views};
use crate::text::{
    append_chars, byte_len, byte_offset, char_at_byte, char_index, char_index_exec, chars_of,
    contains, contains_exec, is_char_boundary, lemma_byte_len_append, occurs_at, rfind,
    rfind_exec, slice_chars, starts_with, starts_with_exec, str_byte_len, string_of,
    str_lowercase, to_lowercase, trim, trim_exec,
};

verus! {

/// The caret clamped to the end of the text.
pub open spec fn clamp_caret(text: Seq<char>, caret: int) -> int {
    if caret < byte_len(text) {
        caret
    } else {
        byte_len(text) as int
    }
}

/// With the text before the caret being `before`, the character index just
/// after the `[[` of an open link, if the caret sits inside one: a `[[` with
/// no `]` or newline between it and the caret.
pub open spec fn open_partial(before: Seq<char>) -> Option<int> {
    match rfind(before, open_link()) {
        None => None,
        Some(o) => {
            let partial = before.skip(o + 2);
            if contains(partial, seq![']', ']']) || contains(partial, seq![']']) || contains(
                partial,
                seq!['\n'],
            ) {
                None
            } else {
                Some(o + 2)
            }
        },
    }
}

/// The text before the caret, as characters.
pub open spec fn before_caret(text: Seq<char>, caret: int) -> Seq<char> {
    text.take(char_index(text, clamp_caret(text, caret)))
}

/// A caret the editor can report: at or past the end, or between two characters.
pub open spec fn caret_ok(text: Seq<char>, caret: int) -> bool {
    is_char_boundary(text, clamp_caret(text, caret))
}

/// Byte offset where the open partial starts, and the partial itself.
pub open spec fn active_wiki_query_spec(text: Seq<char>, caret: int) -> Option<(int, Seq<char>)> {
    let before = before_caret(text, caret);
    match open_partial(before) {
        None => None,
        Some(s) => Some((byte_len(before.take(s)) as int, before.skip(s))),
    }
}

proof fn lemma_take_take(s: Seq<char>, a: int, b: int)
    requires
        0 <= a <= b <= s.len(),
    ensures
        s.take(b).take(a) == s.take(a),
{
    assert(s.take(b).take(a) =~= s.take(a));
}

/// Character index of the (clamped) caret, with the facts callers need.
fn caret_index(tv: &Vec<char>, text: &str, caret: usize) -> (k: usize)
    requires
        tv@ == text@,
        byte_len(text@) <= usize::MAX,
        caret_ok(text@, caret as int),
    ensures
        k <= tv@.len(),
        k == char_index(text@, clamp_caret(text@, caret as int)),
        char_at_byte(text@, clamp_caret(text@, caret as int), k as int),
{
    let total = str_byte_len(text);
    let c = if caret < total {
        caret
    } else {
        total
    };
    match char_index_exec(tv, c) {
        Some(k) => k,
        None => {
            assert(false);
            0
        },
    }
}

/// The open partial of `before`: its start (a character index) if any.
fn open_partial_exec(before: &Vec<char>) -> (r: Option<usize>)
    ensures
        r matches Some(s) ==> open_partial(before@) == Some(s as int) && 2 <= s <= before@.len(),
        r is None ==> open_partial(before@) is None,
{
    let open = vec!['[', '['];
    assert(open@ =~= open_link());
    assert(open@.len() == 2);
    match rfind_exec(before, &open) {
        None => None,
        Some(o) => {
            assert(occurs_at(before@, open@, o as int));
            let n = before.len();
            let partial = slice_chars(before, o + 2, n);
            assert(partial@ =~= before@.skip(o + 2));
            let p1 = vec![']', ']'];
            let p2 = vec![']'];
            let p3 = vec!['\n'];
            assert(p1@ =~= seq![']', ']']);
            assert(p2@ =~= seq![']']);
            assert(p3@ =~= seq!['\n']);
            if contains_exec(&partial, &p1) || contains_exec(&partial, &p2) || contains_exec(
                &partial,
                &p3,
            ) {
                None
            } else {
                Some(o + 2)
            }
        },
    }
}

/// If the caret sits inside an OPEN `[[…` link (a `[[` before the caret with no
/// `]]` or newline between it and the caret), return `(partial_start_byte, partial)`
/// where `partial` is the text between `[[` and the caret. Else `None`.
pub fn active_wiki_query(text: &str, caret: usize) -> (r: Option<(usize, &str)>)
    requires
        byte_len(text@) <= usize::MAX,
        caret_ok(text@, caret as int),
    ensures
        r matches Some((b, p)) ==> active_wiki_query_spec(text@, caret as int) == Some(
            (b as int, p@),
        ),
        r is None ==> active_wiki_query_spec(text@, caret as int) is None,
{
    let tv = chars_of(text);
    let k = caret_index(&tv, text, caret);
    let before = slice_chars(&tv, 0, k);
    match open_partial_exec(&before) {
        None => None,
        Some(s) => {
            proof {
                lemma_take_take(tv@, s as int, k as int);
            }
            let b = byte_offset(&tv, s);
            proof {
                assert(before@ =~= tv@.take(k as int));
                lemma_take_take(tv@, s as int, k as int);
            }
            let p = text.substring_char(s, k);
            assert(p@ =~= before@.skip(s as int));
            Some((b, p))
        },
    }
}

/// The text after completing the open partial with `name`, and the new caret.
pub open spec fn apply_wiki_completion_spec(text: Seq<char>, caret: int, name: Seq<char>) -> (
    Seq<char>,
    int,
) {
    let k = char_index(text, clamp_caret(text, caret));
    match open_partial(text.take(k)) {
        Some(s) => {
            let head = text.take(s) + name + seq![']', ']'];
            (head + text.skip(k), byte_len(head) as int)
        },
        None => (text, clamp_caret(text, caret)),
    }
}

/// Replace the open partial (from just after `[[` to the caret) with `name]]`,
/// closing the link. Returns (new_text, new_caret_byte). If there's no active
/// query, returns the text unchanged with the original caret.
pub fn apply_wiki_completion(text: &str, caret: usize, name: &str) -> (r: (String, usize))
    requires
        byte_len(text@) + byte_len(name@) + 2 <= usize::MAX,
        caret_ok(text@, caret as int),
    ensures
        r.0@ == apply_wiki_completion_spec(text@, caret as int, name@).0,
        r.1 == apply_wiki_completion_spec(text@, caret as int, name@).1,
{
    let tv = chars_of(text);
    let k = caret_index(&tv, text, caret);
    let before = slice_chars(&tv, 0, k);
    match open_partial_exec(&before) {
        Some(s) => {
            proof {
                lemma_take_take(tv@, s as int, k as int);
            }
            let mut out = slice_chars(&tv, 0, s);
            let nv = chars_of(name);
            append_chars(&mut out, &nv);
            let close = vec![']', ']'];
            append_chars(&mut out, &close);
            assert(close@ =~= seq![']', ']']);
            let ghost head = out@;
            proof {
                assert(tv@ =~= tv@.take(s as int) + tv@.skip(s as int));
                lemma_byte_len_append(tv@.take(s as int), tv@.skip(s as int));
                lemma_byte_len_append(tv@.take(s as int), nv@);
                lemma_byte_len_append(tv@.take(s as int) + nv@, close@);
                assert(byte_len(close@) == 2) by {
                    reveal_with_fuel(byte_len, 3);
                }
            }
            let new_caret = byte_offset(&out, out.len());
            assert(out@.take(out@.len() as int) =~= out@);
            let n = tv.len();
            let tail = slice_chars(&tv, k, n);
            append_chars(&mut out, &tail);
            assert(tail@ =~= tv@.skip(k as int));
            (string_of(out.as_slice()), new_caret)
        },
        None => {
            let total = str_byte_len(text);
            let c = if caret < total {
                caret
            } else {
                total
            };
            (string_of(tv.as_slice()), c)
        },
    }
}

/// A caret at the byte end of `head` in `head + tail` has `head` before it.
proof fn lemma_caret_after(head: Seq<char>, tail: Seq<char>)
    ensures
        before_caret(head + tail, byte_len(head) as int) == head,
        caret_ok(head + tail, byte_len(head) as int),
{
    let new = head + tail;
    let nc = byte_len(head) as int;
    lemma_byte_len_append(head, tail);
    assert(clamp_caret(new, nc) == nc);
    assert(new.take(head.len() as int) =~= head);
    assert(crate::text::char_at_byte(new, nc, head.len() as int));
    crate::text::lemma_char_index_unique(new, nc, head.len() as int);
}

/// Text that ends with `]]` has no open link at its end.
proof fn lemma_closed_at_end(head: Seq<char>)
    requires
        head.len() >= 2,
        head[head.len() - 1] == ']',
        head[head.len() - 2] == ']',
    ensures
        open_partial(head) is None,
{
    crate::text::lemma_rfind(head, open_link());
    match rfind(head, open_link()) {
        None => {},
        Some(o) => {
            assert(occurs_at(head, open_link(), o));
            assert(head.subrange(o, o + 2)[0] == '[');
            assert(head.subrange(o, o + 2)[1] == '[');
            assert(o + 2 < head.len());
            let partial = head.skip(o + 2);
            assert(partial[partial.len() - 1] == ']');
            assert(partial.subrange(partial.len() - 1, partial.len() as int) =~= seq![']']);
            assert(occurs_at(partial, seq![']'], partial.len() - 1));
        },
    }
}

/// Completing a link closes it: right after a completion, at the caret it
/// leaves, no link is open any more.
pub proof fn law_completion_closes_link(text: Seq<char>, caret: int, name: Seq<char>)
    requires
        caret_ok(text, caret),
        open_partial(before_caret(text, caret)) is Some,
    ensures
        active_wiki_query_spec(
            apply_wiki_completion_spec(text, caret, name).0,
            apply_wiki_completion_spec(text, caret, name).1,
        ) is None,
{
    let k = char_index(text, clamp_caret(text, caret));
    let s = open_partial(text.take(k))->0;
    let head = text.take(s) + name + seq![']', ']'];
    let tail = text.skip(k);
    assert(apply_wiki_completion_spec(text, caret, name) == (head + tail, byte_len(head) as int));
    lemma_caret_after(head, tail);
    lemma_closed_at_end(head);
}

// ---------------------------------------------------------------------------
// Ranking note names
// ---------------------------------------------------------------------------

/// A lowercased name `l` counts as a prefix match of the lowercased partial `p`.
pub open spec fn prefix_match(l: Seq<char>, p: Seq<char>) -> bool {
    p.len() == 0 || starts_with(l, p)
}

/// The names among the first `i` whose lowercased form passes `keep`.
pub open spec fn pick_upto(
    names: Seq<Seq<char>>,
    lowered: Seq<Seq<char>>,
    p: Seq<char>,
    prefix: bool,
    i: nat,
) -> Seq<Seq<char>>
    decreases i,
{
    if i == 0 {
        seq![]
    } else {
        let acc = pick_upto(names, lowered, p, prefix, (i - 1) as nat);
        let l = lowered[i - 1];
        let keep = if prefix {
            prefix_match(l, p)
        } else {
            !prefix_match(l, p) && contains(l, p)
        };
        if keep {
            acc.push(names[i - 1])
        } else {
            acc
        }
    }
}

/// Prefix matches first, then substring matches, each in input order, capped at `limit`.
pub open spec fn rank_spec(
    names: Seq<Seq<char>>,
    lowered: Seq<Seq<char>>,
    p: Seq<char>,
    limit: int,
) -> Seq<Seq<char>> {
    let all = pick_upto(names, lowered, p, true, names.len()) + pick_upto(
        names,
        lowered,
        p,
        false,
        names.len(),
    );
    if limit < all.len() {
        all.take(limit)
    } else {
        all
    }
}

/// Ranking once names and partial are lowercased: `lowered[i]` is the lowercased
/// form of `names[i]`, `p` the lowercased partial.
pub fn rank_lowered(names: &[String], lowered: &Vec<Vec<char>>, p: &Vec<char>, limit: usize) -> (r:
    Vec<String>)
    requires
        lowered@.len() == names@.len(),
    ensures
        string_views(r@) == rank_spec(
            string_views(names@),
            crate::text::views(lowered@),
            p@,
            limit as int,
        ),
{
    let ghost nv = string_views(names@);
    let ghost lv = crate::text::views(lowered@);
    let mut pre: Vec<String> = Vec::new();
    let mut sub: Vec<String> = Vec::new();
    let mut i: usize = 0;
    while i < names.len()
        invariant
            i <= names@.len() == lowered@.len(),
            nv == string_views(names@),
            lv == crate::text::views(lowered@),
            string_views(pre@) == pick_upto(nv, lv, p@, true, i as nat),
            string_views(sub@) == pick_upto(nv, lv, p@, false, i as nat),
        decreases names.len() - i,
    {
        let l = &lowered[i];
        assert(l@ == lv[i as int]);
        let n = names[i].clone();
        assert(n@ == nv[i as int]);
        if p.len() == 0 || starts_with_exec(l, p) {
            let ghost p0 = pre@;
            pre.push(n);
            assert(string_views(pre@) =~= string_views(p0).push(nv[i as int]));
        } else if contains_exec(l, p) {
            let ghost s0 = sub@;
            sub.push(n);
            assert(string_views(sub@) =~= string_views(s0).push(nv[i as int]));
        }
        i += 1;
    }
    let ghost all = string_views(pre@) + string_views(sub@);
    let mut out: Vec<String> = Vec::new();
    let mut j: usize = 0;
    while j < pre.len() && j < limit
        invariant
            j <= pre@.len(),
            j <= limit,
            string_views(out@) == all.take(j as int),
            all == string_views(pre@) + string_views(sub@),
        decreases pre.len() - j,
    {
        let ghost o0 = out@;
        let c = pre[j].clone();
        assert(c@ == all[j as int]);
        out.push(c);
        assert(string_views(out@) =~= string_views(o0).push(c@));
        assert(all.take(j + 1) =~= all.take(j as int).push(all[j as int]));
        j += 1;
    }
    let mut m: usize = 0;
    while m < sub.len() && j < limit
        invariant
            j == pre@.len() + m || (j == limit && m == 0 && j <= pre@.len()),
            m <= sub@.len(),
            j <= limit,
            string_views(out@) == all.take(j as int),
            all == string_views(pre@) + string_views(sub@),
        decreases sub.len() - m,
    {
        let ghost o0 = out@;
        let c = sub[m].clone();
        assert(j == pre@.len() + m);
        assert(c@ == all[j as int]);
        out.push(c);
        assert(string_views(out@) =~= string_views(o0).push(c@));
        assert(all.take(j + 1) =~= all.take(j as int).push(all[j as int]));
        m += 1;
        j += 1;
    }
    assert(all.take(all.len() as int) =~= all);
    out
}

/// Note names matching `partial` (case-insensitive substring), best-effort ranked:
/// prefix matches first, then the rest, each in input order; capped at `limit`.
pub fn rank_matches(names: &[String], partial: &str, limit: usize) -> (r: Vec<String>)
    ensures
        string_views(r@) == rank_spec(
            string_views(names@),
            string_views(names@).map_values(|n: Seq<char>| str_lowercase(n)),
            str_lowercase(trim(partial@)),
            limit as int,
        ),
{
    let t = trim_exec(&chars_of(partial));
    let ts = string_of(t.as_slice());
    let p = chars_of(to_lowercase(ts.as_str()).as_str());
    let mut lowered: Vec<Vec<char>> = Vec::new();
    let mut i: usize = 0;
    while i < names.len()
        invariant
            i <= names@.len(),
            crate::text::views(lowered@) == string_views(names@).take(i as int).map_values(
                |n: Seq<char>| str_lowercase(n),
            ),
        decreases names.len() - i,
    {
        let l = chars_of(to_lowercase(names[i].as_str()).as_str());
        assert(l@ == str_lowercase(string_views(names@)[i as int]));
        let ghost l0 = lowered@;
        lowered.push(l);
        assert(crate::text::views(lowered@) =~= crate::text::views(l0).push(l@));
        assert(string_views(names@).take(i + 1) =~= string_views(names@).take(i as int).push(
            string_views(names@)[i as int],
        ));
        assert(crate::text::views(lowered@) =~= string_views(names@).take(i + 1).map_values(
            |n: Seq<char>| str_lowercase(n),
        ));
        i += 1;
    }
    assert(string_views(names@).take(names@.len() as int) =~= string_views(names@));
    rank_lowered(names, &lowered, &p, limit)
}

} // verus!
