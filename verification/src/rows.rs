//! The text of the launcher's rows and lists: an entry's title, subtitle and
//! size line; a task row's rank, due date and overdue flag; a note's
//! provenance line and which note stays open; the notices a reminder pass
//! posts; and the ⌘K actions a query keeps.
use vstd::prelude::*;
use crate::badges::{plural, plural_spec};
use crate::clip::Kind;
use crate::mask_view::{mask_render, mask_render_spec};
use crate::format_time::{abs_date, day_str, DAY_MS};
use crate::num::{dec, fmt_i64};
use crate::tasks::{Priority, Task};
use crate::text::{
    append_chars, chars_of, contains, contains_exec, join, join_exec, lines, lines_exec,
    slice_chars, str_lowercase, string_of, to_lowercase, trim, trim_exec, views,
};

verus! {

// ---------------------------------------------------------------------------
// Entry rows
// ---------------------------------------------------------------------------

/// The first line (of `str::lines`) that is not blank once trimmed, trimmed.
pub open spec fn first_filled(ls: Seq<Seq<char>>) -> Option<Seq<char>>
    decreases ls.len(),
{
    if ls.len() == 0 {
        None
    } else if trim(ls[0]).len() > 0 {
        Some(trim(ls[0]))
    } else {
        first_filled(ls.drop_first())
    }
}

/// At most the first 80 characters of `s`.
pub open spec fn first_80(s: Seq<char>) -> Seq<char> {
    if s.len() <= 80 {
        s
    } else {
        s.take(80)
    }
}

/// A row's one-line title: the first line of `text` that has content,
/// trimmed, cut to 80 characters; `None` when every line is blank.
pub open spec fn content_title(text: Seq<char>) -> Option<Seq<char>> {
    match first_filled(lines(text)) {
        Some(l) => Some(first_80(l)),
        None => None,
    }
}

/// The first line of `text` with content, trimmed and cut to 80 characters:
/// the title of a list row (the caller names the entry's kind, or an image's
/// size, when there is none).
pub fn first_content_line(text: &str) -> (r: Option<String>)
    ensures
        match r {
            Some(s) => content_title(text@) == Some(s@),
            None => content_title(text@) is None,
        },
{
    let ls = lines_exec(&chars_of(text));
    let ghost lv = views(ls@);
    let mut i: usize = 0;
    assert(lv.skip(0) =~= lv);
    while i < ls.len()
        invariant
            i <= ls@.len(),
            lv == views(ls@),
            lv == lines(text@),
            first_filled(lv) == first_filled(lv.skip(i as int)),
        decreases ls.len() - i,
    {
        assert(lv.skip(i as int)[0] == ls@[i as int]@);
        let t = trim_exec(&ls[i]);
        if t.len() > 0 {
            let n = if t.len() <= 80 {
                t.len()
            } else {
                80
            };
            let c = slice_chars(&t, 0, n);
            assert(c@ =~= first_80(t@));
            return Some(string_of(c.as_slice()));
        }
        assert(lv.skip(i as int).drop_first() =~= lv.skip(i + 1));
        i += 1;
    }
    None
}

/// The `Size` line of an entry by kind: files count their lines as files,
/// text counts characters and lines; an image's size (its dimensions and
/// bytes) is the caller's, so it is `None` here.
pub open spec fn size_text_spec(kind: Kind, chars: int, lines: int) -> Option<Seq<char>> {
    match kind {
        Kind::Image => None,
        Kind::File => Some(plural_spec(lines, "file"@, "files"@)),
        _ => Some(plural_spec(chars, "char"@, "chars"@) + " · "@ + plural_spec(lines, "line"@, "lines"@)),
    }
}

pub fn size_text(kind: Kind, char_count: i64, line_count: i64) -> (r: Option<String>)
    ensures
        match r {
            Some(s) => size_text_spec(kind, char_count as int, line_count as int) == Some(s@),
            None => size_text_spec(kind, char_count as int, line_count as int) is None,
        },
{
    match kind {
        Kind::Image => None,
        Kind::File => Some(plural(line_count, "file", "files")),
        _ => {
            let c = plural(char_count, "char", "chars");
            let l = plural(line_count, "line", "lines");
            let mut out = chars_of(c.as_str());
            append_chars(&mut out, &chars_of(" · "));
            append_chars(&mut out, &chars_of(l.as_str()));
            Some(string_of(out.as_slice()))
        },
    }
}

/// The tags of an entry as `#a #b`.
pub open spec fn tagline(tags: Seq<Seq<char>>) -> Seq<char> {
    join(tags.map_values(|t: Seq<char>| "#"@ + t), " "@)
}

/// `source · when`, then ` · #tag …` when the entry has tags.
pub open spec fn subtitle_spec(source: Seq<char>, when: Seq<char>, tags: Seq<Seq<char>>) -> Seq<char> {
    if tagline(tags).len() == 0 {
        source + " · "@ + when
    } else {
        source + " · "@ + when + " · "@ + tagline(tags)
    }
}

/// A list row's subtitle: where the entry came from, when, and its tags.
pub fn row_subtitle(source: &str, when: &str, tags: &[String]) -> (r: String)
    ensures
        r@ == subtitle_spec(source@, when@, tags@.map_values(|t: String| t@)),
{
    let ghost tv = tags@.map_values(|t: String| t@);
    let mut parts: Vec<Vec<char>> = Vec::new();
    let mut i: usize = 0;
    while i < tags.len()
        invariant
            i <= tags@.len(),
            tv == tags@.map_values(|t: String| t@),
            views(parts@) == tv.take(i as int).map_values(|t: Seq<char>| "#"@ + t),
        decreases tags.len() - i,
    {
        let mut p = chars_of("#");
        append_chars(&mut p, &chars_of(tags[i].as_str()));
        let ghost p0 = views(parts@);
        parts.push(p);
        assert(views(parts@) =~= p0.push("#"@ + tv[i as int]));
        assert(tv.take(i + 1).map_values(|t: Seq<char>| "#"@ + t) =~= tv.take(i as int).map_values(
            |t: Seq<char>| "#"@ + t,
        ).push("#"@ + tv[i as int]));
        i += 1;
    }
    assert(tv.take(tags@.len() as int) =~= tv);
    let tl = join_exec(&parts, &chars_of(" "));
    let mut out = chars_of(source);
    append_chars(&mut out, &chars_of(" · "));
    append_chars(&mut out, &chars_of(when));
    if tl.len() > 0 {
        append_chars(&mut out, &chars_of(" · "));
        append_chars(&mut out, &tl);
    }
    string_of(out.as_slice())
}

/// What a list row shows of an entry.
pub struct RowView {
    pub title: String,
    pub subtitle: String,
    /// The entry's own thumbnail may be shown.
    pub thumbnail: bool,
    /// A colour swatch may be drawn (when the text reads as a colour).
    pub swatch: bool,
}

/// A list row: its title (`base_title`, or its masked rendering keeping
/// `visible` characters), its subtitle, and whether the entry's own picture
/// may be shown. A masked row shows neither a thumbnail nor a swatch, so a
/// screenshare never leaks the picture behind dotted-out text; only a colour
/// entry gets a swatch.
pub fn row_view(
    kind: Kind,
    base_title: &str,
    masked: bool,
    visible: usize,
    source: &str,
    when: &str,
    tags: &[String],
) -> (r: RowView)
    ensures
        r.title@ == (if masked {
            mask_render_spec(base_title@, visible as int)
        } else {
            base_title@
        }),
        r.subtitle@ == subtitle_spec(source@, when@, tags@.map_values(|t: String| t@)),
        r.thumbnail == !masked,
        r.swatch == (!masked && kind == Kind::Color),
{
    let title = if masked {
        mask_render(base_title, visible)
    } else {
        String::from_str(base_title)
    };
    let swatch = !masked && match kind {
        Kind::Color => true,
        _ => false,
    };
    RowView { title, subtitle: row_subtitle(source, when, tags), thumbnail: !masked, swatch }
}

/// The title of the first of `items` filling slot `n`.
pub open spec fn slot_title(items: Seq<(i64, Seq<char>)>, n: int) -> Option<Seq<char>>
    decreases items.len(),
{
    if items.len() == 0 {
        None
    } else if items[0].0 == n {
        Some(items[0].1)
    } else {
        slot_title(items.drop_first(), n)
    }
}

/// Row `k` of the slot picker: slot `k + 1` with its entry's title, or
/// "Empty" when no entry fills it.
pub open spec fn picker_row(items: Seq<(i64, Seq<char>)>, k: int) -> (int, Seq<char>, bool) {
    match slot_title(items, k + 1) {
        Some(t) => (k + 1, t, true),
        None => (k + 1, "Empty"@, false),
    }
}

pub open spec fn slot_views(v: Seq<(i64, String)>) -> Seq<(i64, Seq<char>)> {
    v.map_values(|p: (i64, String)| (p.0, p.1@))
}

pub open spec fn picker_views(v: Seq<(i32, String, bool)>) -> Seq<(int, Seq<char>, bool)> {
    v.map_values(|p: (i32, String, bool)| (p.0 as int, p.1@, p.2))
}

fn slot_title_exec(items: &[(i64, String)], n: i64) -> (r: Option<String>)
    ensures
        match r {
            Some(t) => slot_title(slot_views(items@), n as int) == Some(t@),
            None => slot_title(slot_views(items@), n as int) is None,
        },
{
    let ghost v = slot_views(items@);
    let mut i: usize = 0;
    assert(v.skip(0) =~= v);
    while i < items.len()
        invariant
            i <= items@.len(),
            v == slot_views(items@),
            slot_title(v, n as int) == slot_title(v.skip(i as int), n as int),
        decreases items.len() - i,
    {
        assert(v.skip(i as int)[0] == (items@[i as int].0, items@[i as int].1@));
        if items[i].0 == n {
            return Some(String::from_str(items[i].1.as_str()));
        }
        assert(v.skip(i as int).drop_first() =~= v.skip(i + 1));
        i += 1;
    }
    None
}

/// The ⌘S slot picker: all nine slots in order, each with the title of the
/// entry filling it (`filled` holds `(slot, title)`), or "Empty".
pub fn slot_picker(filled: &[(i64, String)]) -> (r: Vec<(i32, String, bool)>)
    ensures
        picker_views(r@) == Seq::new(9, |k: int| picker_row(slot_views(filled@), k)),
{
    let ghost want = Seq::new(9, |k: int| picker_row(slot_views(filled@), k));
    let mut r: Vec<(i32, String, bool)> = Vec::new();
    let mut n: i32 = 1;
    while n <= 9
        invariant
            1 <= n <= 10,
            want == Seq::new(9, |k: int| picker_row(slot_views(filled@), k)),
            picker_views(r@) == want.take(n - 1),
        decreases 10 - n,
    {
        let ghost r0 = picker_views(r@);
        let row = match slot_title_exec(filled, n as i64) {
            Some(t) => (n, t, true),
            None => (n, String::from_str("Empty"), false),
        };
        r.push(row);
        assert(picker_views(r@) =~= r0.push(want[n - 1]));
        assert(want.take(n as int) =~= want.take(n - 1).push(want[n - 1]));
        n += 1;
    }
    assert(want.take(9) =~= want);
    r
}

/// The list selection after the list is rebuilt: kept, unless it points
/// outside the `len` rows, when it goes back to the first.
pub fn kept_selection(cur: i32, len: usize) -> (r: i32)
    ensures
        r == (if cur < 0 || cur as int >= len as int {
            0
        } else {
            cur as int
        }),
{
    if cur < 0 || cur as usize >= len {
        0
    } else {
        cur
    }
}

/// A keyboard selection after its list shrank to `len` rows: kept when in
/// range, else moved to the last row (the first when the list is empty).
pub fn clamped_selection(sel: i32, len: i32) -> (r: i32)
    ensures
        r == (if sel >= len {
            if len - 1 > 0 {
                len - 1
            } else {
                0
            }
        } else {
            sel as int
        }),
{
    if sel >= len {
        if len > 1 {
            len - 1
        } else {
            0
        }
    } else {
        sel
    }
}

// ---------------------------------------------------------------------------
// Task rows
// ---------------------------------------------------------------------------

pub open spec fn priority_rank_spec(p: Priority) -> int {
    match p {
        Priority::High => 0,
        Priority::Medium => 1,
        Priority::Low => 2,
        Priority::NoPriority => 3,
    }
}

/// A task row's priority as the list sorts and colours it: High 0, Medium 1,
/// Low 2, none 3.
pub fn priority_rank(p: Priority) -> (r: i32)
    ensures
        r == priority_rank_spec(p),
{
    match p {
        Priority::High => 0,
        Priority::Medium => 1,
        Priority::Low => 2,
        Priority::NoPriority => 3,
    }
}

/// An open task whose due day is before today is overdue.
pub fn task_overdue(due_ms: Option<i64>, done: bool, today_ms: i64) -> (r: bool)
    ensures
        r == (match due_ms {
            Some(d) => d < today_ms,
            None => false,
        } && !done),
{
    let late = match due_ms {
        Some(d) => d < today_ms,
        None => false,
    };
    late && !done
}

/// A task row's due date as `YYYY-MM-DD`, empty when it has none.
pub fn due_label(due_ms: Option<i64>) -> (r: String)
    ensures
        match due_ms {
            Some(d) => r@ == day_str((d as int) / (DAY_MS as int)),
            None => r@.len() == 0,
        },
{
    match due_ms {
        Some(d) => abs_date(d),
        None => String::new(),
    }
}

// ---------------------------------------------------------------------------
// Notes
// ---------------------------------------------------------------------------

/// `captured · YYYY-MM-DD` for a note made from a clip, else
/// `created in Magpie · YYYY-MM-DD`, with the note's creation day.
pub fn note_provenance(created_at_ms: i64, captured: bool) -> (r: String)
    ensures
        r@ == (if captured {
            "captured · "@
        } else {
            "created in Magpie · "@
        }) + day_str((created_at_ms as int) / (DAY_MS as int)),
{
    let when = abs_date(created_at_ms);
    let mut out = if captured {
        chars_of("captured · ")
    } else {
        chars_of("created in Magpie · ")
    };
    append_chars(&mut out, &chars_of(when.as_str()));
    string_of(out.as_slice())
}

/// A note id as the list shows it (`as i32`).
pub open spec fn shown_id(id: i64) -> i32 {
    #[verifier::truncate] (id as i32)
}

/// The note that stays open after the list is rebuilt: the current one if it
/// is still listed, else the most recently edited, else today's daily note,
/// else none (-1). Note ids are shown as `i32`.
pub open spec fn open_note_spec(cur: i32, recent: Seq<i64>, daily: Option<i64>) -> i32 {
    if cur >= 0 && exists|j: int| 0 <= j < recent.len() && #[trigger] shown_id(recent[j]) == cur {
        cur
    } else if recent.len() > 0 {
        shown_id(recent[0])
    } else {
        match daily {
            Some(d) => shown_id(d),
            None => -1i32,
        }
    }
}

pub fn open_note_id(cur: i32, recent: &[i64], daily: Option<i64>) -> (r: i32)
    ensures
        r == open_note_spec(cur, recent@, daily),
{
    if cur >= 0 {
        let mut j: usize = 0;
        while j < recent.len()
            invariant
                cur >= 0,
                j <= recent@.len(),
                forall|q: int| 0 <= q < j ==> shown_id(#[trigger] recent@[q]) != cur,
            decreases recent.len() - j,
        {
            if #[verifier::truncate] (recent[j] as i32) == cur {
                assert(shown_id(recent@[j as int]) == cur);
                return cur;
            }
            j += 1;
        }
    }
    if recent.len() > 0 {
        #[verifier::truncate] (recent[0] as i32)
    } else {
        match daily {
            Some(d) => #[verifier::truncate] (d as i32),
            None => -1,
        }
    }
}

// ---------------------------------------------------------------------------
// Reminders
// ---------------------------------------------------------------------------

/// The message for one due task: its title, then ` · ` and its note's name
/// when it has one.
pub open spec fn due_message(t: Task) -> Seq<char> {
    if t.note_name@.len() == 0 {
        t.title@
    } else {
        t.title@ + " · "@ + t.note_name@
    }
}

/// The notices for the tasks that came due: on the first pass after startup
/// several due tasks make one summary ("N tasks due"); otherwise each task
/// gets its own "Task due" notice.
pub open spec fn notices_spec(due: Seq<Task>, first: bool) -> Seq<(Seq<char>, Seq<char>)> {
    if first && due.len() > 1 {
        seq![("Magpie"@, dec(due.len() as int) + " tasks due"@)]
    } else {
        due.map_values(|t: Task| ("Task due"@, due_message(t)))
    }
}

pub open spec fn pair_views(v: Seq<(String, String)>) -> Seq<(Seq<char>, Seq<char>)> {
    v.map_values(|p: (String, String)| (p.0@, p.1@))
}

/// (title, message) of each notice to post for the tasks that came due.
pub fn reminder_notices(due: &[Task], first: bool) -> (r: Vec<(String, String)>)
    requires
        due@.len() <= i64::MAX,
    ensures
        pair_views(r@) == notices_spec(due@, first),
{
    let mut r: Vec<(String, String)> = Vec::new();
    if first && due.len() > 1 {
        let mut m = fmt_i64(due.len() as i64);
        append_chars(&mut m, &chars_of(" tasks due"));
        r.push((String::from_str("Magpie"), string_of(m.as_slice())));
        assert(pair_views(r@) =~= notices_spec(due@, first));
        return r;
    }
    let mut i: usize = 0;
    while i < due.len()
        invariant
            i <= due@.len(),
            !(first && due@.len() > 1),
            pair_views(r@) == due@.take(i as int).map_values(|t: Task| ("Task due"@, due_message(t))),
        decreases due.len() - i,
    {
        let t = &due[i];
        let mut m = chars_of(t.title.as_str());
        if chars_of(t.note_name.as_str()).len() > 0 {
            append_chars(&mut m, &chars_of(" · "));
            append_chars(&mut m, &chars_of(t.note_name.as_str()));
        }
        assert(m@ == due_message(*t));
        let ghost r0 = pair_views(r@);
        let pr = (String::from_str("Task due"), string_of(m.as_slice()));
        r.push(pr);
        assert(pair_views(r@) =~= r0.push(("Task due"@, due_message(due@[i as int]))));
        assert(due@.take(i + 1).map_values(|t: Task| ("Task due"@, due_message(t))) =~= due@.take(
            i as int,
        ).map_values(|t: Task| ("Task due"@, due_message(t))).push(("Task due"@, due_message(due@[i as int]))));
        i += 1;
    }
    assert(due@.take(due@.len() as int) =~= due@);
    r
}

// ---------------------------------------------------------------------------
// The ⌘K actions
// ---------------------------------------------------------------------------

/// An entry action: the id the UI dispatches on, its icon, its label and the
/// shortcut shown beside it.
pub struct Action {
    pub id: &'static str,
    pub icon: &'static str,
    pub label: &'static str,
    pub key: &'static str,
}

pub open spec fn action_view(a: Action) -> (Seq<char>, Seq<char>, Seq<char>, Seq<char>) {
    (a.id@, a.icon@, a.label@, a.key@)
}

pub open spec fn action_views(v: Seq<Action>) -> Seq<(Seq<char>, Seq<char>, Seq<char>, Seq<char>)> {
    v.map_values(|a: Action| action_view(a))
}

/// The action set, in menu order.
pub open spec fn action_table() -> Seq<(Seq<char>, Seq<char>, Seq<char>, Seq<char>)> {
    seq![
        ("paste"@, "📋"@, "Paste"@, "⏎"@),
        ("copy"@, "📄"@, "Copy"@, "⌘C"@),
        ("keep"@, "📎"@, "Paste & keep open"@, "⌘⏎"@),
        ("edit"@, "📝"@, "Edit"@, "⌘E"@),
        ("snippet"@, "🧩"@, "New snippet"@, "⌘N"@),
        ("pin"@, "📌"@, "Pin / Unpin"@, "⌘P"@),
        ("slot"@, "🔢"@, "Assign to slot…"@, "⌘S"@),
        ("merge"@, "➕"@, "Add to merge"@, "⌘G"@),
        ("note"@, "🗒"@, "New note from this entry"@, "⌘J"@),
        ("delete"@, "🗑"@, "Delete"@, "⌘⌫"@),
    ]
}

fn action(id: &'static str, icon: &'static str, label: &'static str, key: &'static str) -> (r: Action)
    ensures
        action_view(r) == (id@, icon@, label@, key@),
{
    Action { id, icon, label, key }
}

/// The ⌘K action set, in menu order.
pub fn actions() -> (r: Vec<Action>)
    ensures
        action_views(r@) == action_table(),
{
    let mut v: Vec<Action> = Vec::new();
    v.push(action("paste", "📋", "Paste", "⏎"));
    v.push(action("copy", "📄", "Copy", "⌘C"));
    v.push(action("keep", "📎", "Paste & keep open", "⌘⏎"));
    v.push(action("edit", "📝", "Edit", "⌘E"));
    v.push(action("snippet", "🧩", "New snippet", "⌘N"));
    v.push(action("pin", "📌", "Pin / Unpin", "⌘P"));
    v.push(action("slot", "🔢", "Assign to slot…", "⌘S"));
    v.push(action("merge", "➕", "Add to merge", "⌘G"));
    v.push(action("note", "🗒", "New note from this entry", "⌘J"));
    v.push(action("delete", "🗑", "Delete", "⌘⌫"));
    assert(action_views(v@) =~= action_table());
    v
}

/// Whether an action's label matches the lowercased query `q`: every label
/// matches an empty query.
pub open spec fn action_matches(q: Seq<char>, label: Seq<char>) -> bool {
    q.len() == 0 || contains(str_lowercase(label), q)
}

/// The first `n` actions of `t` whose label matches `q`, in order.
pub open spec fn matching_actions(
    t: Seq<(Seq<char>, Seq<char>, Seq<char>, Seq<char>)>,
    q: Seq<char>,
    n: nat,
) -> Seq<(Seq<char>, Seq<char>, Seq<char>, Seq<char>)>
    decreases n,
{
    if n == 0 {
        seq![]
    } else {
        let r = matching_actions(t, q, (n - 1) as nat);
        if action_matches(q, t[n - 1].2) {
            r.push(t[n - 1])
        } else {
            r
        }
    }
}

/// The actions whose label contains `query`, case-insensitively (all of them
/// for an empty query), in menu order.
pub fn filter_actions(query: &str) -> (r: Vec<Action>)
    ensures
        action_views(r@) == matching_actions(action_table(), str_lowercase(query@), 10),
{
    let q = chars_of(to_lowercase(query).as_str());
    let all = actions();
    let ghost t = action_table();
    let mut r: Vec<Action> = Vec::new();
    let mut i: usize = 0;
    while i < all.len()
        invariant
            i <= all@.len(),
            action_views(all@) == t,
            t == action_table(),
            q@ == str_lowercase(query@),
            action_views(r@) == matching_actions(t, q@, i as nat),
        decreases all.len() - i,
    {
        let a = &all[i];
        assert(action_views(all@)[i as int] == action_view(all@[i as int]));
        let keep = q.len() == 0 || contains_exec(&chars_of(to_lowercase(a.label).as_str()), &q);
        if keep {
            let ghost r0 = action_views(r@);
            r.push(Action { id: a.id, icon: a.icon, label: a.label, key: a.key });
            assert(action_views(r@) =~= r0.push(t[i as int]));
        }
        i += 1;
    }
    assert(all@.len() == 10) by {
        assert(action_views(all@).len() == all@.len());
    }
    r
}

} // verus!
