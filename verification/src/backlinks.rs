//! Backlinks and mentions across notes: which other notes reference the open
//! note, split into linked references (`[[name]]`) and unlinked mentions, and
//! turning a mention into a link. Bodies are split at `'\n'`, so a line index
//! found here addresses the same line when linking.
use vstd::prelude::*;
use vstd::string::StrSliceExecFns;
use crate::note::Note;
use crate::notes_view::{string_views, wiki_links, wiki_links_spec};
use crate::text::{
    append_chars, ascii_lower, ascii_lowercase, byte_len, byte_offset, char_is_alphanumeric,
    chars_eq, chars_of, is_alphanumeric, join, join_exec, slice_chars, split_exec, split_on,
    str_lowercase, string_of, to_lowercase, trim, trim_exec, views,
};

verus! {

/// One referencing line in some note. `line` is trimmed for display.
#[derive(Debug, Clone, PartialEq, Eq)]
pub struct Reference {
    pub note_id: i64,
    pub note_name: String,
    pub line_index: usize,
    pub line: String,
}

/// References to a target note, split by whether the line already links it.
#[derive(Debug, Clone, PartialEq, Eq)]
pub struct BacklinkResult {
    pub linked: Vec<Reference>,
    pub unlinked: Vec<Reference>,
}

// ---------------------------------------------------------------------------
// Matching a target inside a line
// ---------------------------------------------------------------------------

/// `target` occurs in `line` at character `k`, ASCII-case-insensitively, with
/// no letter or digit right before or right after it.
pub open spec fn standalone_at(line: Seq<char>, target: Seq<char>, k: int) -> bool {
    let e = k + target.len();
    &&& 0 <= k
    &&& e <= line.len()
    &&& ascii_lower(line.subrange(k, e)) == ascii_lower(target)
    &&& !(k > 0 && char_is_alphanumeric(line[k - 1]))
    &&& !(e < line.len() && char_is_alphanumeric(line[e]))
}

/// First character position from `k` on where `target` stands alone in `line`.
pub open spec fn first_standalone(line: Seq<char>, target: Seq<char>, k: int) -> Option<int>
    decreases line.len() + 1 - k,
{
    if k < 0 || k + target.len() > line.len() {
        None
    } else if standalone_at(line, target, k) {
        Some(k)
    } else {
        first_standalone(line, target, k + 1)
    }
}

/// Character range of the first standalone occurrence of a non-empty target.
pub open spec fn standalone_range(line: Seq<char>, target: Seq<char>) -> Option<(int, int)> {
    if target.len() == 0 {
        None
    } else {
        match first_standalone(line, target, 0) {
            Some(k) => Some((k, k + target.len())),
            None => None,
        }
    }
}

proof fn lemma_first_standalone(line: Seq<char>, target: Seq<char>, k: int)
    requires
        0 <= k,
    ensures
        first_standalone(line, target, k) matches Some(j) ==> k <= j && standalone_at(line, target, j),
    decreases line.len() + 1 - k,
{
    if k + target.len() <= line.len() && !standalone_at(line, target, k) {
        lemma_first_standalone(line, target, k + 1);
    }
}

fn lower_eq_at(line: &Vec<char>, target_lower: &Vec<char>, k: usize) -> (r: bool)
    requires
        k + target_lower@.len() <= line@.len(),
    ensures
        r == (ascii_lower(line@.subrange(k as int, k + target_lower@.len())) == target_lower@),
{
    let n = target_lower.len();
    let ln = line.len();
    let mut j: usize = 0;
    while j < n
        invariant
            ln == line@.len(),
            j <= n == target_lower@.len(),
            k + n <= line@.len(),
            forall|m: int| 0 <= m < j ==> crate::text::ascii_lower_char(line@[k + m]) == target_lower@[m],
        decreases n - j,
    {
        if crate::text::lower_char(line[k + j]) != target_lower[j] {
            assert(ascii_lower(line@.subrange(k as int, k + n))[j as int] != target_lower@[j as int]);
            return false;
        }
        j += 1;
    }
    assert(ascii_lower(line@.subrange(k as int, k + n)) =~= target_lower@);
    true
}

/// Character range of the first standalone occurrence of `target` in `line`.
fn standalone_chars(line: &Vec<char>, target: &Vec<char>) -> (r: Option<(usize, usize)>)
    ensures
        r matches Some((s, e)) ==> standalone_range(line@, target@) == Some((s as int, e as int))
            && s <= e <= line@.len(),
        r is None ==> standalone_range(line@, target@) is None,
{
    let n = target.len();
    if n == 0 {
        return None;
    }
    let tl = ascii_lowercase(target);
    let mut k: usize = 0;
    while k <= line.len() && n <= line.len() - k
        invariant
            n == target@.len() > 0,
            tl@ == ascii_lower(target@),
            first_standalone(line@, target@, 0) == first_standalone(line@, target@, k as int),
        decreases line.len() + 1 - k,
    {
        if lower_eq_at(line, &tl, k) {
            let before = k > 0 && is_alphanumeric(line[k - 1]);
            let after = k + n < line.len() && is_alphanumeric(line[k + n]);
            if !before && !after {
                return Some((k, k + n));
            }
        }
        k += 1;
    }
    None
}

pub open spec fn byte_range(line: Seq<char>, r: (int, int)) -> (int, int) {
    (byte_len(line.take(r.0)) as int, byte_len(line.take(r.1)) as int)
}

/// Byte range of the first standalone, ASCII-case-insensitive occurrence of `target`
/// in `line`. Standalone = the character immediately before and after the match (if
/// any) is not alphanumeric. `None` if `target` is empty or has no such occurrence.
pub fn standalone_match(line: &str, target: &str) -> (r: Option<(usize, usize)>)
    requires
        byte_len(line@) <= usize::MAX,
    ensures
        r matches Some((s, e)) ==> (standalone_range(line@, target@) matches Some(cr) && byte_range(
            line@,
            cr,
        ) == (s as int, e as int)),
        r is None ==> standalone_range(line@, target@) is None,
{
    let lv = chars_of(line);
    match standalone_chars(&lv, &chars_of(target)) {
        Some((s, e)) => {
            proof {
                crate::text::lemma_byte_len_encode(line@);
            }
            Some((byte_offset(&lv, s), byte_offset(&lv, e)))
        },
        None => None,
    }
}

// ---------------------------------------------------------------------------
// Links
// ---------------------------------------------------------------------------

/// `line` holds a `[[…]]` whose name, trimmed and lowercased, is `target_lc`.
pub open spec fn links_to(line: Seq<char>, target_lc: Seq<char>) -> bool {
    exists|k: int|
        0 <= k < wiki_links_spec(line).len() && str_lowercase(trim(wiki_links_spec(line)[k]))
            == target_lc
}

/// True if `line` contains a `[[…]]` whose name equals `target_lc` (already lower).
pub fn line_links_to(line: &str, target_lc: &str) -> (r: bool)
    ensures
        r == links_to(line@, target_lc@),
{
    let names = wiki_links(line);
    let t = chars_of(target_lc);
    let mut i: usize = 0;
    while i < names.len()
        invariant
            i <= names@.len(),
            string_views(names@) == wiki_links_spec(line@),
            t@ == target_lc@,
            forall|k: int| 0 <= k < i ==> str_lowercase(trim(wiki_links_spec(line@)[k])) != target_lc@,
        decreases names.len() - i,
    {
        assert(string_views(names@)[i as int] == names@[i as int]@);
        let tn = trim_exec(&chars_of(names[i].as_str()));
        let ts = string_of(tn.as_slice());
        let l = chars_of(to_lowercase(ts.as_str()).as_str());
        if chars_eq(&l, &t) {
            assert(str_lowercase(trim(wiki_links_spec(line@)[i as int])) == target_lc@);
            return true;
        }
        i += 1;
    }
    false
}

/// The body after linking the mention on line `i`: the first standalone
/// occurrence of the trimmed target wrapped in `[[…]]`, unless the line is
/// out of range, already links the target, or has no such occurrence.
pub open spec fn link_mention_spec(body: Seq<char>, i: int, target: Seq<char>) -> Seq<char> {
    let t = trim(target);
    let ls = split_on(body, '\n');
    if i < 0 || i >= ls.len() {
        body
    } else if links_to(ls[i], str_lowercase(t)) {
        body
    } else {
        match standalone_range(ls[i], t) {
            None => body,
            Some((s, e)) => {
                let line = ls[i];
                let new_line = line.take(s) + "[["@ + line.subrange(s, e) + "]]"@ + line.skip(e);
                join(ls.update(i, new_line), seq!['\n'])
            },
        }
    }
}

/// Wrap the first standalone occurrence of `target` on line `line_index` of `body`
/// as `[[…]]`, preserving the matched text's original casing. No-op (returns `body`
/// unchanged) if the index is out of range, the line already links the target, or no
/// standalone occurrence is found.
pub fn link_mention(body: &str, line_index: usize, target: &str) -> (r: String)
    ensures
        r@ == link_mention_spec(body@, line_index as int, target@),
{
    let tv = trim_exec(&chars_of(target));
    let ts = string_of(tv.as_slice());
    let b = chars_of(body);
    let mut ls = split_exec(&b, '\n');
    if line_index >= ls.len() {
        return string_of(b.as_slice());
    }
    let line = slice_chars(&ls[line_index], 0, ls[line_index].len());
    assert(line@ =~= views(ls@)[line_index as int]);
    let lstr = string_of(line.as_slice());
    let tlc = to_lowercase(ts.as_str());
    if line_links_to(lstr.as_str(), tlc.as_str()) {
        return string_of(b.as_slice());
    }
    match standalone_chars(&line, &tv) {
        None => string_of(b.as_slice()),
        Some((s, e)) => {
            let mut nl = slice_chars(&line, 0, s);
            append_chars(&mut nl, &chars_of("[["));
            append_chars(&mut nl, &slice_chars(&line, s, e));
            append_chars(&mut nl, &chars_of("]]"));
            let n = line.len();
            append_chars(&mut nl, &slice_chars(&line, e, n));
            let ghost nlv = nl@;
            let ghost before = views(ls@);
            ls.set(line_index, nl);
            assert(views(ls@) =~= before.update(line_index as int, nlv));
            let sep = vec!['\n'];
            assert(sep@ =~= seq!['\n']);
            string_of(join_exec(&ls, &sep).as_slice())
        },
    }
}

// ---------------------------------------------------------------------------
// Finding references
// ---------------------------------------------------------------------------

/// The reference a line of a note makes: note id and name, line index and
/// trimmed line.
pub open spec fn reference_of(n: Note, i: int, line: Seq<char>) -> (i64, Seq<char>, int, Seq<char>) {
    (n.id, n.name@, i, trim(line))
}

pub open spec fn ref_view(r: Reference) -> (i64, Seq<char>, int, Seq<char>) {
    (r.note_id, r.note_name@, r.line_index as int, r.line@)
}

pub open spec fn ref_views(v: Seq<Reference>) -> Seq<(i64, Seq<char>, int, Seq<char>)> {
    v.map_values(|r: Reference| ref_view(r))
}

/// The references made by lines `ls[..j]` of note `n`: those that link the
/// target (`linked`) or else mention it standalone (`!linked`).
pub open spec fn line_refs(
    n: Note,
    ls: Seq<Seq<char>>,
    j: nat,
    target: Seq<char>,
    target_lc: Seq<char>,
    linked: bool,
) -> Seq<(i64, Seq<char>, int, Seq<char>)>
    decreases j,
{
    if j == 0 {
        seq![]
    } else {
        let r = line_refs(n, ls, (j - 1) as nat, target, target_lc, linked);
        let line = ls[j - 1];
        let hit = if linked {
            links_to(line, target_lc)
        } else {
            !links_to(line, target_lc) && standalone_range(line, target) is Some
        };
        if hit {
            r.push(reference_of(n, j - 1, line))
        } else {
            r
        }
    }
}

/// The references made by notes `notes[..i]`, skipping the target note itself.
pub open spec fn note_refs(
    notes: Seq<Note>,
    i: nat,
    target: Seq<char>,
    target_lc: Seq<char>,
    linked: bool,
) -> Seq<(i64, Seq<char>, int, Seq<char>)>
    decreases i,
{
    if i == 0 {
        seq![]
    } else {
        let r = note_refs(notes, (i - 1) as nat, target, target_lc, linked);
        let n = notes[i - 1];
        if str_lowercase(trim(n.name@)) == target_lc {
            r
        } else {
            let ls = split_on(n.body@, '\n');
            r + line_refs(n, ls, ls.len(), target, target_lc, linked)
        }
    }
}

/// Linked and unlinked references to the (trimmed) target in `notes`, in note
/// order then line order; none for a blank target.
pub open spec fn references_spec(target_name: Seq<char>, notes: Seq<Note>, linked: bool) -> Seq<
    (i64, Seq<char>, int, Seq<char>),
> {
    let t = trim(target_name);
    if t.len() == 0 {
        seq![]
    } else {
        note_refs(notes, notes.len(), t, str_lowercase(t), linked)
    }
}

fn make_ref(n: &Note, i: usize, line: &Vec<char>) -> (r: Reference)
    ensures
        ref_view(r) == reference_of(*n, i as int, line@),
{
    Reference {
        note_id: n.id,
        note_name: n.name.clone(),
        line_index: i,
        line: string_of(trim_exec(line).as_slice()),
    }
}

/// Scan `notes` for lines referencing `target_name` (case-insensitive), skipping the
/// target note itself. A line with `[[target]]` is a linked reference; a line with a
/// standalone plain-text `target` that is not already such a link is an unlinked
/// mention. Note order then line order preserved.
pub fn find_references(target_name: &str, notes: &[Note]) -> (r: BacklinkResult)
    ensures
        ref_views(r.linked@) == references_spec(target_name@, notes@, true),
        ref_views(r.unlinked@) == references_spec(target_name@, notes@, false),
{
    let tv = trim_exec(&chars_of(target_name));
    let mut linked: Vec<Reference> = Vec::new();
    let mut unlinked: Vec<Reference> = Vec::new();
    if tv.len() == 0 {
        assert(ref_views(linked@) =~= Seq::<(i64, Seq<char>, int, Seq<char>)>::empty());
        assert(ref_views(unlinked@) =~= Seq::<(i64, Seq<char>, int, Seq<char>)>::empty());
        return BacklinkResult { linked, unlinked };
    }
    let ts = string_of(tv.as_slice());
    let tlc = to_lowercase(ts.as_str());
    let tlv = chars_of(tlc.as_str());
    let ghost t = tv@;
    let ghost tl = tlc@;
    let mut i: usize = 0;
    assert(ref_views(linked@) =~= Seq::<(i64, Seq<char>, int, Seq<char>)>::empty());
    assert(ref_views(unlinked@) =~= Seq::<(i64, Seq<char>, int, Seq<char>)>::empty());
    while i < notes.len()
        invariant
            i <= notes@.len(),
            t == tv@,
            tl == tlc@,
            tlv@ == tl,
            ref_views(linked@) == note_refs(notes@, i as nat, t, tl, true),
            ref_views(unlinked@) == note_refs(notes@, i as nat, t, tl, false),
        decreases notes.len() - i,
    {
        let n = &notes[i];
        assert(*n == notes@[i as int]);
        let nn = trim_exec(&chars_of(n.name.as_str()));
        let nns = string_of(nn.as_slice());
        let nlc = chars_of(to_lowercase(nns.as_str()).as_str());
        if !chars_eq(&nlc, &tlv) {
            let ls = split_exec(&chars_of(n.body.as_str()), '\n');
            let ghost lv = views(ls@);
            let ghost l0 = ref_views(linked@);
            let ghost u0 = ref_views(unlinked@);
            let mut j: usize = 0;
            while j < ls.len()
                invariant
                    j <= ls@.len(),
                    lv == views(ls@),
                    lv == split_on(n.body@, '\n'),
                    t == tv@,
                    tl == tlc@,
                    ref_views(linked@) == l0 + line_refs(*n, lv, j as nat, t, tl, true),
                    ref_views(unlinked@) == u0 + line_refs(*n, lv, j as nat, t, tl, false),
                decreases ls.len() - j,
            {
                let line = &ls[j];
                assert(line@ == lv[j as int]);
                let lstr = string_of(line.as_slice());
                if line_links_to(lstr.as_str(), tlc.as_str()) {
                    let ghost v0 = ref_views(linked@);
                    let rf = make_ref(n, j, line);
                    linked.push(rf);
                    assert(ref_views(linked@) =~= v0.push(ref_view(rf)));
                    assert(l0 + line_refs(*n, lv, (j + 1) as nat, t, tl, true) =~= (l0 + line_refs(
                        *n,
                        lv,
                        j as nat,
                        t,
                        tl,
                        true,
                    )).push(reference_of(*n, j as int, lv[j as int])));
                } else if standalone_chars(line, &tv).is_some() {
                    let ghost v0 = ref_views(unlinked@);
                    let rf = make_ref(n, j, line);
                    unlinked.push(rf);
                    assert(ref_views(unlinked@) =~= v0.push(ref_view(rf)));
                    assert(u0 + line_refs(*n, lv, (j + 1) as nat, t, tl, false) =~= (u0 + line_refs(
                        *n,
                        lv,
                        j as nat,
                        t,
                        tl,
                        false,
                    )).push(reference_of(*n, j as int, lv[j as int])));
                }
                j += 1;
            }
        }
        i += 1;
    }
    BacklinkResult { linked, unlinked }
}


/// Linking a mention a second time changes nothing once the first wrap reads
/// as a link to the target: the line then links the target, and a line that
/// links it is left alone.
pub proof fn law_link_mention_twice(body: Seq<char>, i: int, target: Seq<char>)
    requires
        ({
            let b1 = link_mention_spec(body, i, target);
            b1 == body || (0 <= i < split_on(b1, '\n').len() && links_to(
                split_on(b1, '\n')[i],
                str_lowercase(trim(target)),
            ))
        }),
    ensures
        link_mention_spec(link_mention_spec(body, i, target), i, target) == link_mention_spec(body, i, target),
{
    let b1 = link_mention_spec(body, i, target);
    if b1 != body {
        let t = trim(target);
        let ls = split_on(body, '\n');
        let line = ls[i];
        let (s, e) = standalone_range(line, t)->0;
        if t.len() > 0 {
            lemma_first_standalone(line, t, 0);
        }
        reveal_strlit("[[");
        reveal_strlit("]]");
        let new_line = line.take(s) + "[["@ + line.subrange(s, e) + "]]"@ + line.skip(e);
        crate::text::lemma_split_pieces(body, '\n');
        assert forall|j: int| 0 <= j < new_line.len() implies new_line[j] != '\n' by {
            let a = s;
            if j < a {
                assert(new_line[j] == line[j]);
            } else if j >= a + 2 && j < e + 2 {
                assert(new_line[j] == line[j - 2]);
            } else if j >= e + 4 {
                assert(new_line[j] == line[j - 4]);
            }
        }
        crate::task_laws::lemma_replace_line_lines(body, i, new_line);
        assert(split_on(b1, '\n')[i] == new_line);
    }
}

/// Linking a mention touches only line `i`: the result has the same lines as
/// `body` except line `i`, which is either unchanged or the old line with
/// `[[` and `]]` put around one stretch of it that reads as the target (ASCII
/// case aside) and stands alone. An index past the last line leaves `body`
/// as it is.
pub proof fn law_link_mention_lines(body: Seq<char>, i: int, target: Seq<char>)
    ensures
        ({
            let r = link_mention_spec(body, i, target);
            let ls = split_on(body, '\n');
            let rs = split_on(r, '\n');
            &&& rs.len() == ls.len()
            &&& forall|j: int| 0 <= j < ls.len() && j != i ==> #[trigger] rs[j] == ls[j]
            &&& (i < 0 || i >= ls.len()) ==> r == body
            &&& 0 <= i < ls.len() ==> (rs[i] == ls[i] || exists|a: int, e: int|
                #![trigger ls[i].subrange(a, e)]
                0 <= a < e <= ls[i].len() && ascii_lower(ls[i].subrange(a, e)) == ascii_lower(
                    trim(target),
                ) && rs[i] == ls[i].take(a) + "[["@ + ls[i].subrange(a, e) + "]]"@ + ls[i].skip(e))
        }),
{
    let r = link_mention_spec(body, i, target);
    let ls = split_on(body, '\n');
    if r != body {
        let t = trim(target);
        let line = ls[i];
        let (a, e) = standalone_range(line, t)->0;
        lemma_first_standalone(line, t, 0);
        reveal_strlit("[[");
        reveal_strlit("]]");
        let new_line = line.take(a) + "[["@ + line.subrange(a, e) + "]]"@ + line.skip(e);
        crate::text::lemma_split_pieces(body, '\n');
        assert forall|j: int| 0 <= j < new_line.len() implies new_line[j] != '\n' by {
            if j < a {
                assert(new_line[j] == line[j]);
            } else if j >= a + 2 && j < e + 2 {
                assert(new_line[j] == line[j - 2]);
            } else if j >= e + 4 {
                assert(new_line[j] == line[j - 4]);
            }
        }
        crate::task_laws::lemma_replace_line_lines(body, i, new_line);
        assert(split_on(r, '\n') == ls.update(i, new_line));
        assert(ls[i].subrange(a, e) == line.subrange(a, e));
    }
}

} // verus!
