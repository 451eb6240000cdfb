//! Laws of the task-line edits: what one edit does to the lines of a body,
//! and what two edits in a row do.
use vstd::prelude::*;
use crate::tasks::{
    bookmark_toggled, clamp_cursor, drop_stars, has_star, indent_of, is_task_line, line_bounds,
    marker_spec, promote_spec, replace_line, restatused_line, set_line_status_spec, status_glyph,
    toggle_bookmark_spec, toggle_line_spec, toggled_line, Status,
};
use crate::text::{
    byte_len, char_at_byte, char_index, char_is_whitespace, find, is_char_boundary, join, lead_ws,
    lemma_byte_len_append, lemma_byte_len_take_mono, lemma_char_index_unique, lemma_find,
    lemma_join_split, lemma_lead_ws, lemma_lead_ws_bound, lemma_rfind, lemma_split_join,
    lemma_split_on_len, lemma_split_pieces, occurs_at, rfind, split_on, starts_with, trail_ws,
    trim_end, trim_start, words, ascii_lower, ascii_lower_char,
};

verus! {

/// Replacing line `i` of `body` by a line without a newline leaves the other
/// lines as they were: the lines of the result are the old ones with line `i`
/// replaced.
pub proof fn lemma_replace_line_lines(body: Seq<char>, i: int, line: Seq<char>)
    requires
        0 <= i < split_on(body, '\n').len(),
        forall|j: int| 0 <= j < line.len() ==> line[j] != '\n',
    ensures
        split_on(replace_line(body, i, line), '\n') == split_on(body, '\n').update(i, line),
{
    let ls = split_on(body, '\n');
    let ls2 = ls.update(i, line);
    lemma_split_pieces(body, '\n');
    assert forall|k: int, j: int| 0 <= k < ls2.len() && 0 <= j < ls2[k].len() implies ls2[k][j]
        != '\n' by {
        if k != i {
            assert(ls2[k] == ls[k]);
        }
    }
    lemma_join_split(ls2, '\n');
}

/// Putting back line `i` as it was gives back the body.
pub proof fn lemma_replace_line_same(body: Seq<char>, i: int)
    requires
        0 <= i < split_on(body, '\n').len(),
    ensures
        replace_line(body, i, split_on(body, '\n')[i]) == body,
{
    let ls = split_on(body, '\n');
    assert(ls.update(i, ls[i]) =~= ls);
    lemma_split_join(body, '\n');
}

/// `indent + x`, with `indent` all whitespace and `x` starting with a
/// non-whitespace character, has exactly `indent` as leading whitespace.
proof fn lemma_indent_then(indent: Seq<char>, x: Seq<char>)
    requires
        forall|j: int| 0 <= j < indent.len() ==> char_is_whitespace(#[trigger] indent[j]),
        x.len() > 0,
        !char_is_whitespace(x[0]),
    ensures
        lead_ws(indent + x) == indent.len(),
        trim_start(indent + x) == x,
        indent_of(indent + x) == indent,
{
    let s = indent + x;
    assert forall|j: int| 0 <= j < indent.len() implies char_is_whitespace(s[j]) by {
        assert(s[j] == indent[j]);
    }
    assert(s[indent.len() as int] == x[0]);
    lemma_lead_ws(s, indent.len() as int);
    assert(s.skip(indent.len() as int) =~= x);
    assert(s.take(indent.len() as int) =~= indent);
}

/// A line's indentation followed by the rest of the line is the line.
proof fn lemma_indent_rest(line: Seq<char>)
    ensures
        indent_of(line) + trim_start(line) == line,
        forall|j: int| 0 <= j < indent_of(line).len() ==> char_is_whitespace(#[trigger] indent_of(line)[j]),
{
    lemma_lead_ws_bound(line);
    assert(indent_of(line) + trim_start(line) =~= line);
    assert forall|j: int| 0 <= j < indent_of(line).len() implies char_is_whitespace(#[trigger] indent_of(line)[j]) by {
        assert(indent_of(line)[j] == line[j]);
    }
}

/// An open (`- [ ]`) or lowercase-done (`- [x]`) task line toggled twice is
/// the line itself.
pub proof fn lemma_toggled_twice(line: Seq<char>)
    requires
        starts_with(trim_start(line), "- [ ]"@) || starts_with(trim_start(line), "- [x]"@),
    ensures
        toggled_line(line) is Some,
        toggled_line(toggled_line(line)->0) == Some(line),
{
    reveal_strlit("- [ ]");
    reveal_strlit("- [x]");
    reveal_strlit("- [/]");
    reveal_strlit("- [X]");
    let rest = trim_start(line);
    let ind = indent_of(line);
    lemma_indent_rest(line);
    let r5 = rest.skip(5);
    assert(rest =~= rest.take(5) + r5);
    if starts_with(rest, "- [ ]"@) {
        let t = ind + "- [x]"@ + r5;
        assert(toggled_line(line) == Some(t));
        let x = "- [x]"@ + r5;
        assert(t =~= ind + x);
        lemma_indent_then(ind, x);
        assert(starts_with(x, "- [x]"@)) by {
            assert(x.subrange(0, 5) =~= "- [x]"@);
        }
        assert(!starts_with(x, "- [ ]"@)) by {
            assert(x[3] != "- [ ]"@[3]);
        }
        assert(!starts_with(x, "- [/]"@)) by {
            assert(x[3] != "- [/]"@[3]);
        }
        assert(x.skip(5) =~= r5);
        assert(rest.take(5) =~= "- [ ]"@);
        assert(ind + "- [ ]"@ + r5 =~= line);
    } else {
        assert(!starts_with(rest, "- [/]"@)) by {
            assert(rest[3] != "- [/]"@[3]);
        }
        let t = ind + "- [ ]"@ + r5;
        assert(toggled_line(line) == Some(t));
        let x = "- [ ]"@ + r5;
        assert(t =~= ind + x);
        lemma_indent_then(ind, x);
        assert(starts_with(x, "- [ ]"@)) by {
            assert(x.subrange(0, 5) =~= "- [ ]"@);
        }
        assert(x.skip(5) =~= r5);
        assert(rest.take(5) =~= "- [x]"@);
        assert(ind + "- [x]"@ + r5 =~= line);
    }
}

/// A toggled line holds no newline when the line holds none.
proof fn lemma_toggled_no_newline(line: Seq<char>)
    requires
        forall|j: int| 0 <= j < line.len() ==> line[j] != '\n',
        toggled_line(line) is Some,
    ensures
        forall|j: int| 0 <= j < (toggled_line(line)->0).len() ==> (toggled_line(line)->0)[j] != '\n',
{
    reveal_strlit("- [ ]");
    reveal_strlit("- [x]");
    reveal_strlit("- [/]");
    reveal_strlit("- [X]");
    lemma_lead_ws_bound(line);
    let ind = indent_of(line);
    let rest = trim_start(line);
    assert(rest.len() >= 5);
    let r5 = rest.skip(5);
    let mk: Seq<char> = if starts_with(rest, "- [ ]"@) || starts_with(rest, "- [/]"@) {
        "- [x]"@
    } else {
        "- [ ]"@
    };
    let t = toggled_line(line)->0;
    assert(t == ind + mk + r5);
    assert forall|j: int| 0 <= j < t.len() implies t[j] != '\n' by {
        if j < ind.len() {
            assert(t[j] == line[j]);
        } else if j < ind.len() + 5 {
            assert(t[j] == mk[j - ind.len()]);
        } else {
            let m = j - ind.len() - 5;
            assert(t[j] == r5[m]);
            assert(r5[m] == line[lead_ws(line) + 5 + m]);
        }
    }
}

/// Checking a task off and then toggling it again restores the body: for a
/// line marked `- [ ]` or `- [x]`, two toggles are no change at all.
pub proof fn law_toggle_twice(body: Seq<char>, i: int)
    requires
        0 <= i < split_on(body, '\n').len(),
        starts_with(trim_start(split_on(body, '\n')[i]), "- [ ]"@) || starts_with(
            trim_start(split_on(body, '\n')[i]),
            "- [x]"@,
        ),
    ensures
        toggle_line_spec(toggle_line_spec(body, i), i) == body,
{
    let ls = split_on(body, '\n');
    let l = ls[i];
    lemma_toggled_twice(l);
    let t = toggled_line(l)->0;
    lemma_split_pieces(body, '\n');
    assert forall|j: int| 0 <= j < l.len() implies l[j] != '\n' by {
        assert(ls[i][j] != '\n');
    }
    lemma_toggled_no_newline(l);
    let b1 = replace_line(body, i, t);
    assert(toggle_line_spec(body, i) == b1);
    lemma_replace_line_lines(body, i, t);
    assert(split_on(b1, '\n')[i] == t);
    assert(toggled_line(t) == Some(l));
    lemma_replace_line_lines(body, i, t);
    let ls1 = split_on(b1, '\n');
    assert(toggle_line_spec(b1, i) == replace_line(b1, i, l));
    assert(ls1.update(i, l) =~= ls);
    lemma_split_join(body, '\n');
}

/// Re-marking a line with the status it was just given changes nothing.
proof fn lemma_restatused_twice(line: Seq<char>, st: Status)
    requires
        restatused_line(line, st) is Some,
    ensures
        restatused_line(restatused_line(line, st)->0, st) == restatused_line(line, st),
{
    reveal_strlit("- [ ]");
    reveal_strlit("- [x]");
    reveal_strlit("- [/]");
    reveal_strlit("- [X]");
    let rest = trim_start(line);
    let ind = indent_of(line);
    lemma_indent_rest(line);
    let r5 = rest.skip(5);
    let mk = seq!['-', ' ', '[', status_glyph(st), ']'];
    let x = mk + r5;
    let l1 = ind + mk + r5;
    assert(l1 =~= ind + x);
    lemma_indent_then(ind, x);
    let g = status_glyph(st);
    assert(g == ' ' || g == '/' || g == 'x');
    assert(x.subrange(0, 5) =~= mk);
    if g == ' ' {
        assert(starts_with(x, "- [ ]"@)) by {
            assert(mk =~= "- [ ]"@);
        }
    } else if g == '/' {
        assert(starts_with(x, "- [/]"@)) by {
            assert(mk =~= "- [/]"@);
        }
    } else {
        assert(starts_with(x, "- [x]"@)) by {
            assert(mk =~= "- [x]"@);
        }
    }
    assert(x.skip(5) =~= r5);
}

/// A restatused line holds no newline when the line holds none.
proof fn lemma_restatused_no_newline(line: Seq<char>, st: Status)
    requires
        forall|j: int| 0 <= j < line.len() ==> line[j] != '\n',
        restatused_line(line, st) is Some,
    ensures
        forall|j: int| 0 <= j < (restatused_line(line, st)->0).len() ==> (restatused_line(line, st)->0)[j] != '\n',
{
    reveal_strlit("- [ ]");
    reveal_strlit("- [x]");
    reveal_strlit("- [/]");
    reveal_strlit("- [X]");
    lemma_lead_ws_bound(line);
    let ind = indent_of(line);
    let rest = trim_start(line);
    assert(rest.len() >= 5);
    let r5 = rest.skip(5);
    let mk = seq!['-', ' ', '[', status_glyph(st), ']'];
    let t = restatused_line(line, st)->0;
    assert(t == ind + mk + r5);
    assert forall|j: int| 0 <= j < t.len() implies t[j] != '\n' by {
        if j < ind.len() {
            assert(t[j] == line[j]);
        } else if j < ind.len() + 5 {
            assert(t[j] == mk[j - ind.len()]);
        } else {
            let m = j - ind.len() - 5;
            assert(t[j] == r5[m]);
            assert(r5[m] == line[lead_ws(line) + 5 + m]);
        }
    }
}

/// Setting a task's status twice is the same as setting it once.
pub proof fn law_set_status_idempotent(body: Seq<char>, i: int, st: Status)
    ensures
        set_line_status_spec(set_line_status_spec(body, i, st), i, st) == set_line_status_spec(body, i, st),
{
    let ls = split_on(body, '\n');
    if 0 <= i < ls.len() && restatused_line(ls[i], st) is Some {
        let l = ls[i];
        let l1 = restatused_line(l, st)->0;
        lemma_split_pieces(body, '\n');
        assert forall|j: int| 0 <= j < l.len() implies l[j] != '\n' by {
            assert(ls[i][j] != '\n');
        }
        lemma_restatused_no_newline(l, st);
        lemma_restatused_twice(l, st);
        let b1 = replace_line(body, i, l1);
        lemma_replace_line_lines(body, i, l1);
        assert(split_on(b1, '\n')[i] == l1);
        assert(restatused_line(l1, st) == Some(l1));
        lemma_replace_line_same(b1, i);
    }
}


/// What `line_bounds` finds: a newline-free stretch around `k`, ended by a
/// newline or the text's ends on both sides.
proof fn lemma_line_bounds(b: Seq<char>, k: int)
    requires
        0 <= k <= b.len(),
    ensures
        ({
            let (s, e) = line_bounds(b, k);
            &&& 0 <= s <= k <= e <= b.len()
            &&& s == 0 || b[s - 1] == '\n'
            &&& e == b.len() || b[e] == '\n'
            &&& forall|x: int| s <= x < e ==> b[x] != '\n'
        }),
{
    let nl = seq!['\n'];
    let pre = b.take(k);
    let post = b.skip(k);
    lemma_rfind(pre, nl);
    lemma_find(post, nl);
    let (s, e) = line_bounds(b, k);
    match rfind(pre, nl) {
        Some(j) => {
            assert(occurs_at(pre, nl, j));
            assert(pre.subrange(j, j + 1)[0] == b[j]);
            assert forall|x: int| s <= x < k implies b[x] != '\n' by {
                if b[x] == '\n' {
                    assert(pre.subrange(x, x + 1) =~= nl);
                    assert(occurs_at(pre, nl, x));
                }
            }
        },
        None => {
            assert forall|x: int| 0 <= x < k implies b[x] != '\n' by {
                if b[x] == '\n' {
                    assert(pre.subrange(x, x + 1) =~= nl);
                    assert(occurs_at(pre, nl, x));
                }
            }
        },
    }
    match find(post, nl) {
        Some(j) => {
            assert(occurs_at(post, nl, j));
            assert(post.subrange(j, j + 1)[0] == b[k + j]);
            assert forall|x: int| k <= x < e implies b[x] != '\n' by {
                if b[x] == '\n' {
                    assert(post.subrange(x - k, x - k + 1) =~= nl);
                    assert(occurs_at(post, nl, x - k));
                }
            }
        },
        None => {
            assert forall|x: int| k <= x < b.len() implies b[x] != '\n' by {
                if b[x] == '\n' {
                    assert(post.subrange(x - k, x - k + 1) =~= nl);
                    assert(occurs_at(post, nl, x - k));
                }
            }
        },
    }
}

/// A newline-free stretch `s..e` around `k`, ended by a newline or the
/// text's ends on both sides, is the line `line_bounds` finds.
proof fn lemma_line_bounds_exact(b: Seq<char>, k: int, s: int, e: int)
    requires
        0 <= s <= k <= e <= b.len(),
        s == 0 || b[s - 1] == '\n',
        e == b.len() || b[e] == '\n',
        forall|x: int| s <= x < e ==> b[x] != '\n',
    ensures
        line_bounds(b, k) == (s, e),
{
    lemma_line_bounds(b, k);
    let (s2, e2) = line_bounds(b, k);
    if s2 < s {
        assert(b[s2 - 1] == '\n' || s2 == 0);
        if s2 > 0 {
            assert(s - 1 >= s2);
            assert(b[s - 1] != '\n');
        } else {
            assert(s > 0 && b[s - 1] == '\n');
        }
    }
    if s < s2 {
        assert(b[s2 - 1] != '\n');
    }
    if e2 < e {
        assert(b[e2] != '\n');
    }
    if e < e2 {
        assert(b[e] != '\n');
    }
}

/// Promoting a line to a task twice at the same cursor adds the marker once:
/// the second promotion finds the line already a task and leaves the text as
/// it is (when the cursor falls between characters both times).
#[verifier::spinoff_prover]
#[verifier::rlimit(40)]
pub proof fn law_promote_idempotent(body: Seq<char>, cursor: int)
    requires
        is_char_boundary(body, clamp_cursor(body, cursor)),
        is_char_boundary(
            promote_spec(body, cursor),
            clamp_cursor(promote_spec(body, cursor), cursor),
        ),
    ensures
        promote_spec(promote_spec(body, cursor), cursor) == promote_spec(body, cursor),
{
    let cb = clamp_cursor(body, cursor);
    let k = char_index(body, cb);
    assert(char_at_byte(body, cb, k));
    lemma_line_bounds(body, k);
    let (start, end) = line_bounds(body, k);
    let line = body.subrange(start, end);
    if is_task_line(line) {
        return;
    }
    let m = "- [ ] "@;
    let ind = indent_of(line);
    let rest = trim_start(line);
    let nl = ind + m + rest;
    let new = body.take(start) + ind + m + rest + body.skip(end);
    assert(promote_spec(body, cursor) == new);
    assert(new =~= body.take(start) + nl + body.skip(end));
    let new_end = start + nl.len();
    lemma_indent_rest(line);
    // The new line holds no newline and is a task line.
    assert forall|x: int| 0 <= x < nl.len() implies nl[x] != '\n' by {
        reveal_strlit("- [ ] ");
        if x < ind.len() {
            assert(nl[x] == line[x]);
        } else if x >= ind.len() + 6 {
            assert(nl[x] == line[x - 6]);
        }
    }
    reveal_strlit("- [ ] ");
    let x = m + rest;
    assert(nl =~= ind + x);
    assert(x[0] == '-');
    lemma_indent_then(ind, x);
    assert(x.subrange(0, 6) =~= m);
    assert(marker_spec(trim_start(nl)) is Some);
    // The cursor still falls in the new line.
    let cb2 = clamp_cursor(new, cursor);
    let k2 = char_index(new, cb2);
    assert(char_at_byte(new, cb2, k2));
    assert(new.take(start) =~= body.take(start));
    assert(body.take(end) =~= body.take(start) + line);
    assert(new.take(new_end) =~= body.take(start) + nl);
    lemma_byte_len_append(body.take(start), line);
    lemma_byte_len_append(body.take(start), nl);
    lemma_byte_len_append(ind, rest);
    lemma_byte_len_append(ind + m, rest);
    lemma_byte_len_append(ind, m);
    assert(line == ind + rest);
    if start < k {
        lemma_byte_len_take_mono(body, start, k);
    }
    assert(new =~= new.take(start) + new.skip(start));
    lemma_byte_len_append(new.take(start), new.skip(start));
    if k2 < start {
        lemma_byte_len_take_mono(new, k2, start);
    }
    if end < body.len() {
        if cursor >= byte_len(body) {
            assert(char_at_byte(body, byte_len(body) as int, body.len() as int)) by {
                assert(body.take(body.len() as int) =~= body);
            }
            lemma_char_index_unique(body, cb, body.len() as int);
        }
        if k < end {
            lemma_byte_len_take_mono(body, k, end);
        }
        if new_end < k2 {
            lemma_byte_len_take_mono(new, new_end, k2);
        }
    } else {
        assert(new_end == new.len());
    }
    assert(start <= k2 <= new_end);
    assert(new.subrange(start, new_end) =~= nl);
    assert forall|y: int| start <= y < new_end implies new[y] != '\n' by {
        assert(new[y] == nl[y - start]);
    }
    if start > 0 {
        assert(new[start - 1] == body[start - 1]);
    }
    if new_end < new.len() {
        assert(new[new_end] == body[end]);
    }
    lemma_line_bounds_exact(new, k2, start, new_end);
}


/// Splitting on whitespace around a whitespace boundary: the words of `x + b`
/// are those of `x` followed by those of `b` when the two meet at whitespace.
proof fn lemma_words_append(x: Seq<char>, b: Seq<char>)
    requires
        x.len() == 0 || b.len() == 0 || char_is_whitespace(x.last()) || char_is_whitespace(b[0]),
    ensures
        words(x + b) == words(x) + words(b),
    decreases b.len(),
{
    if b.len() == 0 {
        assert(x + b =~= x);
        assert(words(x) + words(b) =~= words(x));
    } else {
        let b0 = b.drop_last();
        let c = b.last();
        let s = x + b;
        assert(s.drop_last() =~= x + b0);
        assert(s.last() == c);
        if b0.len() > 0 {
            assert(b0[0] == b[0]);
        }
        lemma_words_append(x, b0);
        let w0 = words(x + b0);
        if char_is_whitespace(c) {
            assert(words(s) == w0);
            assert(words(b) == words(b0));
        } else if s.len() >= 2 && !char_is_whitespace(s[s.len() - 2]) {
            if b0.len() > 0 {
                assert(s[s.len() - 2] == b0.last());
                assert(b[b.len() - 2] == b0.last());
                crate::text::lemma_words_nonempty(b0);
                let wb = words(b0);
                assert(words(b) == wb.update(wb.len() - 1, wb.last().push(c)));
                assert(words(s) == w0.update(w0.len() - 1, w0.last().push(c)));
                assert(w0.update(w0.len() - 1, w0.last().push(c)) =~= words(x) + wb.update(
                    wb.len() - 1,
                    wb.last().push(c),
                ));
            } else {
                assert(s[s.len() - 2] == x.last());
                assert(b[0] == c);
            }
        } else {
            assert(words(s) == w0.push(seq![c]));
            if b0.len() > 0 {
                assert(s[s.len() - 2] == b0.last());
                assert(b[b.len() - 2] == b0.last());
                assert(words(b) == words(b0).push(seq![c]));
            } else {
                assert(words(b) == words(b0).push(seq![c]));
            }
            assert(w0.push(seq![c]) =~= words(x) + words(b0).push(seq![c]));
        }
    }
}

/// Joining pieces, cut after the first `k`.
proof fn lemma_join_at(p: Seq<Seq<char>>, k: int, sep: Seq<char>)
    requires
        0 < k < p.len(),
    ensures
        join(p, sep) == join(p.take(k), sep) + sep + join(p.skip(k), sep),
    decreases p.len(),
{
    let d = p.drop_last();
    if k == p.len() - 1 {
        assert(p.take(k) =~= d);
        assert(p.skip(k) =~= seq![p.last()]);
        assert(join(p.skip(k), sep) == p.last());
    } else {
        lemma_join_at(d, k, sep);
        assert(d.take(k) =~= p.take(k));
        let r = p.skip(k);
        assert(r.drop_last() =~= d.skip(k));
        assert(r.last() == p.last());
        assert(join(r, sep) == join(r.drop_last(), sep) + sep + r.last());
    }
}

/// A piece `*` of a line split on spaces is a word `*` of the line.
proof fn lemma_star_piece_is_word(line: Seq<char>, q: int)
    requires
        0 <= q < split_on(line, ' ').len(),
        split_on(line, ' ')[q] == seq!['*'],
    ensures
        has_star(line),
{
    let p = split_on(line, ' ');
    let sp = seq![' '];
    lemma_split_join(line, ' ');
    let a = if q > 0 {
        join(p.take(q), sp) + sp
    } else {
        Seq::<char>::empty()
    };
    let r = join(p.skip(q), sp);
    if q > 0 {
        lemma_join_at(p, q, sp);
        assert(line == a + r) by {
            assert(join(p.take(q), sp) + sp + r =~= a + r);
        }
    } else {
        assert(p.skip(0) =~= p);
        assert(line =~= a + r);
    }
    let tail = p.skip(q);
    let bb = if q + 1 < p.len() {
        sp + join(p.skip(q + 1), sp)
    } else {
        Seq::<char>::empty()
    };
    if q + 1 < p.len() {
        lemma_join_at(tail, 1, sp);
        assert(tail.take(1) =~= seq![seq!['*']]);
        assert(tail.skip(1) =~= p.skip(q + 1));
        assert(r =~= seq!['*'] + bb);
    } else {
        assert(tail =~= seq![seq!['*']]);
        assert(r =~= seq!['*'] + bb);
    }
    assert(line =~= a + seq!['*'] + bb);
    lemma_words_append(a, seq!['*']);
    assert(words(seq!['*']) == seq![seq!['*']]) by {
        let s1 = seq!['*'];
        assert(s1.drop_last() =~= Seq::<char>::empty());
        assert(words(s1.drop_last()) =~= Seq::<Seq<char>>::empty());
        assert(!char_is_whitespace(s1.last()));
        assert(words(s1) =~= Seq::<Seq<char>>::empty().push(seq!['*']));
    }
    lemma_words_append(a + seq!['*'], bb);
    let w = words(line);
    assert(w =~= words(a) + seq![seq!['*']] + words(bb));
    assert(w[words(a).len() as int] == seq!['*']);
}

/// Dropping `*` pieces from pieces that hold none changes nothing.
proof fn lemma_drop_stars_none(p: Seq<Seq<char>>)
    requires
        forall|k: int| 0 <= k < p.len() ==> p[k] != seq!['*'],
    ensures
        drop_stars(p) == p,
    decreases p.len(),
{
    if p.len() > 0 {
        lemma_drop_stars_none(p.drop_last());
        assert(p.drop_last().push(p.last()) =~= p);
    }
}

/// A task marker is at least five characters long.
proof fn lemma_marker_len(t: Seq<char>)
    requires
        marker_spec(t) is Some,
    ensures
        t.len() >= 5,
{
    reveal_strlit("- [ ] ");
    reveal_strlit("- [/] ");
    reveal_strlit("- [x] ");
    reveal_strlit("- [X] ");
    reveal_strlit("- [ ]");
    reveal_strlit("- [/]");
    reveal_strlit("- [x]");
    if !starts_with(t, "- [ ] "@) && !starts_with(t, "- [/] "@) && !starts_with(t, "- [x] "@)
        && !starts_with(t, "- [X] "@) && t != "- [ ]"@ && t != "- [/]"@ {
        assert(ascii_lower(t).len() == t.len());
    }
}

/// A task line with ` *` appended is still a task line.
proof fn lemma_marker_with_star(t: Seq<char>)
    requires
        marker_spec(t) is Some,
    ensures
        marker_spec(t + seq![' ', '*']) is Some,
{
    reveal_strlit("- [ ] ");
    reveal_strlit("- [/] ");
    reveal_strlit("- [x] ");
    reveal_strlit("- [X] ");
    reveal_strlit("- [ ]");
    reveal_strlit("- [/]");
    reveal_strlit("- [x]");
    let u = t + seq![' ', '*'];
    if starts_with(t, "- [ ] "@) {
        assert(u.subrange(0, 6) =~= t.subrange(0, 6));
    } else if starts_with(t, "- [/] "@) {
        assert(u.subrange(0, 6) =~= t.subrange(0, 6));
    } else if starts_with(t, "- [x] "@) {
        assert(u.subrange(0, 6) =~= t.subrange(0, 6));
    } else if starts_with(t, "- [X] "@) {
        assert(u.subrange(0, 6) =~= t.subrange(0, 6));
    } else if t == "- [ ]"@ {
        assert(u.subrange(0, 6) =~= "- [ ] "@);
    } else if t == "- [/]"@ {
        assert(u.subrange(0, 6) =~= "- [/] "@);
    } else {
        assert(ascii_lower(t) == "- [x]"@);
        assert(t.len() == 5);
        assert forall|k: int| 0 <= k < 5 && k != 3 implies t[k] == "- [x]"@[k] by {
            assert(ascii_lower(t)[k] == ascii_lower_char(t[k]));
        }
        assert(ascii_lower(t)[3] == ascii_lower_char(t[3]));
        if t[3] == 'x' {
            assert(u.subrange(0, 6) =~= "- [x] "@);
        } else {
            assert(t[3] == 'X');
            assert(u.subrange(0, 6) =~= "- [X] "@);
        }
    }
}

/// Bookmarking a task line and then un-bookmarking it gives the body back,
/// for a task line with no `*` word and no trailing whitespace (the toggle
/// trims the line's end).
pub proof fn law_bookmark_twice(body: Seq<char>, i: int)
    requires
        0 <= i < split_on(body, '\n').len(),
        is_task_line(split_on(body, '\n')[i]),
        !has_star(split_on(body, '\n')[i]),
        trail_ws(split_on(body, '\n')[i]) == 0,
    ensures
        toggle_bookmark_spec(toggle_bookmark_spec(body, i), i) == body,
{
    let ls = split_on(body, '\n');
    let l = ls[i];
    let st = seq![' ', '*'];
    assert(trim_end(l) =~= l);
    let l1 = l + st;
    assert(bookmark_toggled(l) == l1);
    lemma_split_pieces(body, '\n');
    assert forall|j: int| 0 <= j < l1.len() implies l1[j] != '\n' by {
        if j < l.len() {
            assert(ls[i][j] != '\n');
        }
    }
    let b1 = replace_line(body, i, l1);
    assert(toggle_bookmark_spec(body, i) == b1);
    lemma_replace_line_lines(body, i, l1);
    let ls1 = split_on(b1, '\n');
    assert(ls1[i] == l1);
    // The bookmarked line is still a task line, and now has a star.
    lemma_lead_ws_bound(l);
    lemma_marker_len(trim_start(l));
    assert(lead_ws(l) < l.len());
    assert forall|j: int| 0 <= j < lead_ws(l) implies char_is_whitespace(#[trigger] l1[j]) by {
        assert(l1[j] == l[j]);
    }
    lemma_lead_ws(l1, lead_ws(l) as int);
    assert(trim_start(l1) =~= trim_start(l) + st);
    lemma_marker_with_star(trim_start(l));
    assert(is_task_line(l1));
    assert(l1.drop_last() =~= l + seq![' ']);
    assert((l + seq![' ']).drop_last() =~= l);
    let wl1 = words(l1);
    assert(wl1 == words(l1.drop_last()).push(seq!['*']));
    assert(has_star(l1)) by {
        assert(wl1[wl1.len() - 1] == seq!['*']);
    }
    // Un-bookmarking drops the star piece and gives back the line.
    let p = split_on(l, ' ');
    lemma_split_on_len(l, ' ');
    assert(split_on(l + seq![' '], ' ') == p.push(Seq::<char>::empty()));
    assert(split_on(l1, ' ') =~= p.push(seq!['*']));
    assert(drop_stars(p.push(seq!['*'])) == drop_stars(p)) by {
        assert(p.push(seq!['*']).drop_last() =~= p);
    }
    assert forall|k: int| 0 <= k < p.len() implies p[k] != seq!['*'] by {
        if p[k] == seq!['*'] {
            lemma_star_piece_is_word(l, k);
        }
    }
    lemma_drop_stars_none(p);
    lemma_split_join(l, ' ');
    assert(bookmark_toggled(l1) == l);
    assert(toggle_bookmark_spec(b1, i) == replace_line(b1, i, l));
    assert(ls1.update(i, l) =~= ls);
    lemma_split_join(body, '\n');
}

} // verus!
