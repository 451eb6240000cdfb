//! The clipboard history as the app sees it: an entry's kind and the fields
//! the views read, the sections of the history list, quick-paste slots, the
//! filter selectors, retention caps and stats ranges.
use vstd::prelude::*;
use crate::config::Config;
use crate::format_time::in_i64;
use crate::num::div_euclid;

verus! {

/// What a clipboard entry holds.
#[derive(Debug, Clone, Copy, PartialEq, Eq, Structural)]
pub enum Kind {
    Text,
    Rtf,
    Html,
    Link,
    Color,
    Email,
    Image,
    File,
}

/// One clipboard history entry.
#[derive(Debug, Clone)]
pub struct Entry {
    pub id: i64,
    pub content_hash: String,
    pub kind: Kind,
    pub preview_text: String,
    pub full_text: String,
    pub image_path: Option<String>,
    pub byte_size: i64,
    pub char_count: i64,
    pub word_count: i64,
    pub line_count: i64,
    pub first_copied_at_ms: i64,
    pub last_copied_at_ms: i64,
    pub copy_count: i64,
    pub pinned: bool,
    pub source_app_id: Option<i64>,
}

fn copy_opt_string(o: &Option<String>) -> (r: Option<String>)
    ensures
        r == *o,
{
    match o {
        Some(s) => Some(s.clone()),
        None => None,
    }
}

/// A field-by-field copy of an entry.
pub fn copy_entry(e: &Entry) -> (r: Entry)
    ensures
        r == *e,
{
    Entry {
        id: e.id,
        content_hash: e.content_hash.clone(),
        kind: e.kind,
        preview_text: e.preview_text.clone(),
        full_text: e.full_text.clone(),
        image_path: copy_opt_string(&e.image_path),
        byte_size: e.byte_size,
        char_count: e.char_count,
        word_count: e.word_count,
        line_count: e.line_count,
        first_copied_at_ms: e.first_copied_at_ms,
        last_copied_at_ms: e.last_copied_at_ms,
        copy_count: e.copy_count,
        pinned: e.pinned,
        source_app_id: e.source_app_id,
    }
}

// ---------------------------------------------------------------------------
// History sections
// ---------------------------------------------------------------------------

pub const DAY_MS: i64 = 86_400_000;

#[derive(Debug, Clone, Copy, PartialEq, Eq, Structural)]
pub enum Section {
    Today,
    Yesterday,
    Older,
}

impl Section {
    pub open spec fn label_spec(&self) -> Seq<char> {
        match self {
            Section::Today => "Today"@,
            Section::Yesterday => "Yesterday"@,
            Section::Older => "Older"@,
        }
    }

    pub fn label(&self) -> (r: &'static str)
        ensures
            r@ == self.label_spec(),
    {
        match self {
            Section::Today => "Today",
            Section::Yesterday => "Yesterday",
            Section::Older => "Older",
        }
    }
}

/// The section of an entry last copied at `last_ms`, seen at `now_ms`: by UTC
/// day, today, yesterday, or older (a future day counts as older).
pub open spec fn section_spec(last_ms: int, now_ms: int) -> Section {
    let d = now_ms / (DAY_MS as int) - last_ms / (DAY_MS as int);
    if d == 0 {
        Section::Today
    } else if d == 1 {
        Section::Yesterday
    } else {
        Section::Older
    }
}

pub fn section_for(last_copied_ms: i64, now_ms: i64) -> (r: Section)
    ensures
        r == section_spec(last_copied_ms as int, now_ms as int),
{
    let today = div_euclid(now_ms, DAY_MS);
    let day = div_euclid(last_copied_ms, DAY_MS);
    assert(-200_000_000_000 < today < 200_000_000_000);
    assert(-200_000_000_000 < day < 200_000_000_000);
    let d = today - day;
    if d == 0 {
        Section::Today
    } else if d == 1 {
        Section::Yesterday
    } else {
        Section::Older
    }
}

/// Indices of the first `i` entries that fall in section `s`.
pub open spec fn section_indices(entries: Seq<Entry>, now_ms: int, s: Section, i: nat) -> Seq<usize>
    decreases i,
{
    if i == 0 {
        seq![]
    } else {
        let r = section_indices(entries, now_ms, s, (i - 1) as nat);
        if section_spec(entries[i - 1].last_copied_at_ms as int, now_ms) == s {
            r.push((i - 1) as usize)
        } else {
            r
        }
    }
}

/// The non-empty sections in Today, Yesterday, Older order, each with the
/// indices of its entries in input order.
pub open spec fn group_spec(entries: Seq<Entry>, now_ms: int) -> Seq<(Section, Seq<usize>)> {
    let n = entries.len();
    let t = section_indices(entries, now_ms, Section::Today, n);
    let y = section_indices(entries, now_ms, Section::Yesterday, n);
    let o = section_indices(entries, now_ms, Section::Older, n);
    (if t.len() > 0 {
        seq![(Section::Today, t)]
    } else {
        seq![]
    }) + (if y.len() > 0 {
        seq![(Section::Yesterday, y)]
    } else {
        seq![]
    }) + (if o.len() > 0 {
        seq![(Section::Older, o)]
    } else {
        seq![]
    })
}

pub open spec fn group_views(g: Seq<(Section, Vec<usize>)>) -> Seq<(Section, Seq<usize>)> {
    g.map_values(|p: (Section, Vec<usize>)| (p.0, p.1@))
}

pub fn group(entries: &[Entry], now_ms: i64) -> (r: Vec<(Section, Vec<usize>)>)
    ensures
        group_views(r@) == group_spec(entries@, now_ms as int),
{
    let ghost n = entries@.len();
    let mut today: Vec<usize> = Vec::new();
    let mut yesterday: Vec<usize> = Vec::new();
    let mut older: Vec<usize> = Vec::new();
    let mut i: usize = 0;
    while i < entries.len()
        invariant
            i <= entries@.len(),
            today@ == section_indices(entries@, now_ms as int, Section::Today, i as nat),
            yesterday@ == section_indices(entries@, now_ms as int, Section::Yesterday, i as nat),
            older@ == section_indices(entries@, now_ms as int, Section::Older, i as nat),
        decreases entries.len() - i,
    {
        match section_for(entries[i].last_copied_at_ms, now_ms) {
            Section::Today => today.push(i),
            Section::Yesterday => yesterday.push(i),
            Section::Older => older.push(i),
        }
        i += 1;
    }
    let mut out: Vec<(Section, Vec<usize>)> = Vec::new();
    let ghost t = today@;
    let ghost y = yesterday@;
    let ghost o = older@;
    if today.len() > 0 {
        out.push((Section::Today, today));
    }
    let ghost g1 = group_views(out@);
    if yesterday.len() > 0 {
        out.push((Section::Yesterday, yesterday));
    }
    let ghost g2 = group_views(out@);
    if older.len() > 0 {
        out.push((Section::Older, older));
    }
    assert(group_views(out@) =~= group_spec(entries@, now_ms as int)) by {
        assert(g1 =~= (if t.len() > 0 { seq![(Section::Today, t)] } else { seq![] }));
        assert(g2 =~= g1 + (if y.len() > 0 { seq![(Section::Yesterday, y)] } else { seq![] }));
    }
    out
}

proof fn lemma_section_indices(entries: Seq<Entry>, now_ms: int, s: Section, i: nat)
    requires
        i <= entries.len() <= usize::MAX,
    ensures
        forall|k: int| 0 <= k < section_indices(entries, now_ms, s, i).len() ==> {
            let j = #[trigger] section_indices(entries, now_ms, s, i)[k];
            j < i && section_spec(entries[j as int].last_copied_at_ms as int, now_ms) == s
        },
        forall|a: int, b: int| 0 <= a < b < section_indices(entries, now_ms, s, i).len()
            ==> section_indices(entries, now_ms, s, i)[a] < section_indices(entries, now_ms, s, i)[b],
        forall|j: int| 0 <= j < i && section_spec(entries[j].last_copied_at_ms as int, now_ms) == s
            ==> section_indices(entries, now_ms, s, i).contains(j as usize),
    decreases i,
{
    if i > 0 {
        lemma_section_indices(entries, now_ms, s, (i - 1) as nat);
        let r = section_indices(entries, now_ms, s, (i - 1) as nat);
        if section_spec(entries[i - 1].last_copied_at_ms as int, now_ms) == s {
            assert forall|j: int| 0 <= j < i && section_spec(entries[j].last_copied_at_ms as int, now_ms) == s
                implies r.push((i - 1) as usize).contains(j as usize) by {
                if j < i - 1 {
                    let k = choose|k: int| 0 <= k < r.len() && r[k] == j as usize;
                    assert(r.push((i - 1) as usize)[k] == j as usize);
                } else {
                    assert(r.push((i - 1) as usize)[r.len() as int] == j as usize);
                }
            }
        }
    }
}

/// Every entry lands in exactly the section its day says, indices ascending:
/// the groups are a partition of the entry indices.
pub proof fn law_group_partitions(entries: Seq<Entry>, now_ms: int, j: int, s: Section)
    requires
        0 <= j < entries.len() <= usize::MAX,
    ensures
        section_indices(entries, now_ms, s, entries.len()).contains(j as usize) <==> section_spec(
            entries[j].last_copied_at_ms as int,
            now_ms,
        ) == s,
{
    lemma_section_indices(entries, now_ms, s, entries.len());
    let r = section_indices(entries, now_ms, s, entries.len());
    if r.contains(j as usize) {
        let k = choose|k: int| 0 <= k < r.len() && r[k] == j as usize;
        assert(r[k] == j as usize);
    }
}

// ---------------------------------------------------------------------------
// Quick paste
// ---------------------------------------------------------------------------

/// The entry quick-paste slot `slot` (1-based) pastes: the slot-th most recent.
pub fn resolve_quick_paste(recent: &[Entry], slot: usize) -> (r: Option<&Entry>)
    ensures
        r matches Some(e) ==> 1 <= slot <= recent@.len() && *e == recent@[slot - 1],
        r is None ==> slot == 0 || slot > recent@.len(),
{
    if slot == 0 {
        return None;
    }
    if slot - 1 < recent.len() {
        Some(&recent[slot - 1])
    } else {
        None
    }
}

/// Pick the slot entry if assigned, else the `slot`-th most-recent (1-based).
pub fn resolve_slot_or_recent(slot_entry: Option<Entry>, recent: &[Entry], slot: usize) -> (r: Option<Entry>)
    ensures
        slot_entry is Some ==> r == slot_entry,
        slot_entry is None ==> (r matches Some(e) ==> 1 <= slot <= recent@.len() && e
            == recent@[slot - 1]),
        slot_entry is None ==> (r is None <==> (slot == 0 || slot > recent@.len())),
{
    match slot_entry {
        Some(e) => Some(e),
        None => match resolve_quick_paste(recent, slot) {
            Some(e) => Some(copy_entry(e)),
            None => None,
        },
    }
}

#[derive(Debug, Clone, Copy, PartialEq, Eq, Structural)]
pub enum PasteKind {
    Formatted,
    PlainText,
}

// ---------------------------------------------------------------------------
// Filters
// ---------------------------------------------------------------------------

#[derive(Debug, Clone, Copy, PartialEq, Eq, Structural)]
pub enum TypeFilter {
    All,
    Text,
    Link,
    Color,
    Email,
    Image,
    File,
}

impl TypeFilter {
    pub open spec fn kind_spec(self) -> Option<Kind> {
        match self {
            TypeFilter::All => None,
            TypeFilter::Text => Some(Kind::Text),
            TypeFilter::Link => Some(Kind::Link),
            TypeFilter::Color => Some(Kind::Color),
            TypeFilter::Email => Some(Kind::Email),
            TypeFilter::Image => Some(Kind::Image),
            TypeFilter::File => Some(Kind::File),
        }
    }

    /// The entry kind a filter selects; `None` for all kinds.
    pub fn to_kind(self) -> (r: Option<Kind>)
        ensures
            r == self.kind_spec(),
    {
        match self {
            TypeFilter::All => None,
            TypeFilter::Text => Some(Kind::Text),
            TypeFilter::Link => Some(Kind::Link),
            TypeFilter::Color => Some(Kind::Color),
            TypeFilter::Email => Some(Kind::Email),
            TypeFilter::Image => Some(Kind::Image),
            TypeFilter::File => Some(Kind::File),
        }
    }
}

/// Map a type-filter row index to a `TypeFilter` (0 All · 1 Text · 2 Link ·
/// 3 Color · 4 Image · 5 File; out-of-range → All).
pub fn type_filter_from_index(i: i32) -> (r: TypeFilter)
    ensures
        r == (if i == 1 {
            TypeFilter::Text
        } else if i == 2 {
            TypeFilter::Link
        } else if i == 3 {
            TypeFilter::Color
        } else if i == 4 {
            TypeFilter::Image
        } else if i == 5 {
            TypeFilter::File
        } else {
            TypeFilter::All
        }),
{
    match i {
        1 => TypeFilter::Text,
        2 => TypeFilter::Link,
        3 => TypeFilter::Color,
        4 => TypeFilter::Image,
        5 => TypeFilter::File,
        _ => TypeFilter::All,
    }
}

/// Order of the history list.
#[derive(Debug, Clone, Copy, PartialEq, Eq, Structural)]
pub enum Sort {
    Recency,
    MostCopied,
}

/// Map a sort control index to a `Sort` (0 Recency · 1 Most copied; else Recency).
pub fn sort_from_index(i: i32) -> (r: Sort)
    ensures
        r == (if i == 1 {
            Sort::MostCopied
        } else {
            Sort::Recency
        }),
{
    match i {
        1 => Sort::MostCopied,
        _ => Sort::Recency,
    }
}

#[derive(Debug, Clone, Copy, PartialEq, Eq, Structural)]
pub enum TimeFilter {
    All,
    Today,
    Last7Days,
    Last30Days,
}

/// Map an advanced-search time-range index: 0 All · 1 Today · 2 Last7Days ·
/// 3 Last30Days (out of range → All).
pub fn time_filter_from_index(i: i32) -> (r: TimeFilter)
    ensures
        r == (if i == 1 {
            TimeFilter::Today
        } else if i == 2 {
            TimeFilter::Last7Days
        } else if i == 3 {
            TimeFilter::Last30Days
        } else {
            TimeFilter::All
        }),
{
    match i {
        1 => TimeFilter::Today,
        2 => TimeFilter::Last7Days,
        3 => TimeFilter::Last30Days,
        _ => TimeFilter::All,
    }
}

/// A time window of the history: entries copied at or after `since_ms` and
/// before `until_ms`, where each bound is optional.
#[derive(Debug, Clone, Copy, PartialEq, Eq, Structural)]
pub struct TimeRange {
    pub since_ms: Option<i64>,
    pub until_ms: Option<i64>,
}

pub open spec fn time_range_spec(f: TimeFilter, now_ms: int) -> Option<int> {
    match f {
        TimeFilter::All => None,
        TimeFilter::Today => Some(now_ms - now_ms % (DAY_MS as int)),
        TimeFilter::Last7Days => Some(now_ms - 7 * DAY_MS),
        TimeFilter::Last30Days => Some(now_ms - 30 * DAY_MS),
    }
}

/// The window's start fits in an `i64`.
pub open spec fn time_fits(f: TimeFilter, now_ms: int) -> bool {
    match time_range_spec(f, now_ms) {
        Some(s) => in_i64(s),
        None => true,
    }
}

/// The time window a time filter selects at `now_ms`: since UTC midnight
/// today, the last 7 or 30 days, or everything.
pub fn time_range(f: TimeFilter, now_ms: i64) -> (r: TimeRange)
    requires
        time_fits(f, now_ms as int),
    ensures
        r.until_ms is None,
        match time_range_spec(f, now_ms as int) {
            Some(s) => r.since_ms == Some(s as i64),
            None => r.since_ms is None,
        },
{
    match f {
        TimeFilter::All => TimeRange { since_ms: None, until_ms: None },
        TimeFilter::Today => {
            let m = crate::num::rem_euclid(now_ms, DAY_MS);
            TimeRange { since_ms: Some(now_ms - m), until_ms: None }
        },
        TimeFilter::Last7Days => TimeRange { since_ms: Some(now_ms - 7 * DAY_MS), until_ms: None },
        TimeFilter::Last30Days => TimeRange { since_ms: Some(now_ms - 30 * DAY_MS), until_ms: None },
    }
}

/// How the search text is matched: as words, or fuzzily.
#[derive(Debug, Clone, Copy, PartialEq, Eq, Structural)]
pub enum SearchMode {
    Word,
    Fuzzy,
}

/// What the launcher's search controls are set to.
pub struct UiState {
    pub text: String,
    pub mode: SearchMode,
    pub type_filter: TypeFilter,
    pub app_filter: Option<i64>,
    pub time_filter: TimeFilter,
    pub sort: Sort,
    pub tag: Option<String>,
    pub pinned_only: bool,
}

/// The search the history is asked for: the fields the launcher sets.
pub struct SearchQuery {
    pub text: String,
    pub mode: SearchMode,
    pub kind: Option<Kind>,
    pub source_app_id: Option<i64>,
    pub sort: Sort,
    pub tag: Option<String>,
    pub pinned_only: bool,
    pub time: TimeRange,
}

impl UiState {
    /// Empty text, word matching, every kind, app and time, newest first,
    /// no tag, pinned and unpinned alike.
    pub fn new() -> (r: Self)
        ensures
            r.text@.len() == 0,
            r.mode == SearchMode::Word,
            r.type_filter == TypeFilter::All,
            r.app_filter is None,
            r.time_filter == TimeFilter::All,
            r.sort == Sort::Recency,
            r.tag is None,
            !r.pinned_only,
    {
        UiState {
            text: String::new(),
            mode: SearchMode::Word,
            type_filter: TypeFilter::All,
            app_filter: None,
            time_filter: TimeFilter::All,
            sort: Sort::Recency,
            tag: None,
            pinned_only: false,
        }
    }
}

impl Default for UiState {
    fn default() -> (r: Self)
        ensures
            r.text@.len() == 0,
            r.mode == SearchMode::Word,
            r.type_filter == TypeFilter::All,
            r.app_filter is None,
            r.time_filter == TimeFilter::All,
            r.sort == Sort::Recency,
            r.tag is None,
            !r.pinned_only,
    {
        Self::new()
    }
}

/// Whether any control narrows the history list: an app, the pinned flag, a
/// tag, a type or a time filter. The empty list then offers to clear them.
pub fn is_filtered(ui: &UiState) -> (r: bool)
    ensures
        r == (ui.app_filter is Some || ui.pinned_only || ui.tag is Some || ui.type_filter
            != TypeFilter::All || ui.time_filter != TimeFilter::All),
{
    let typed = match ui.type_filter {
        TypeFilter::All => false,
        _ => true,
    };
    let timed = match ui.time_filter {
        TimeFilter::All => false,
        _ => true,
    };
    ui.app_filter.is_some() || ui.pinned_only || ui.tag.is_some() || typed || timed
}

pub open spec fn opt_str_view(o: Option<String>) -> Option<Seq<char>> {
    match o {
        Some(s) => Some(s@),
        None => None,
    }
}

/// The search the controls ask for at `now_ms`: the same text, mode, sort,
/// tag and pinned flag; the kind of the type filter; the source app; and the
/// time window of the time filter.
pub fn to_query(ui: &UiState, now_ms: i64) -> (q: SearchQuery)
    requires
        time_fits(ui.time_filter, now_ms as int),
    ensures
        q.text@ == ui.text@,
        q.mode == ui.mode,
        q.kind == ui.type_filter.kind_spec(),
        q.source_app_id == ui.app_filter,
        q.sort == ui.sort,
        opt_str_view(q.tag) == opt_str_view(ui.tag),
        q.pinned_only == ui.pinned_only,
        q.time.until_ms is None,
        match time_range_spec(ui.time_filter, now_ms as int) {
            Some(s) => q.time.since_ms == Some(s as i64),
            None => q.time.since_ms is None,
        },
{
    SearchQuery {
        text: String::from_str(ui.text.as_str()),
        mode: ui.mode,
        kind: ui.type_filter.to_kind(),
        source_app_id: ui.app_filter,
        sort: ui.sort,
        tag: copy_opt_string(&ui.tag),
        pinned_only: ui.pinned_only,
        time: time_range(ui.time_filter, now_ms),
    }
}

// ---------------------------------------------------------------------------
// Retention and stats
// ---------------------------------------------------------------------------

/// Caps on how much history is kept; `None` means no cap.
#[derive(Debug, Clone, Copy, PartialEq, Eq, Structural)]
pub struct RetentionPolicy {
    pub max_entries: Option<i64>,
    pub max_age_ms: Option<i64>,
    pub max_image_bytes: Option<i64>,
}

impl RetentionPolicy {
    /// No cap is set, so a sweep removes nothing.
    pub fn is_noop(&self) -> (r: bool)
        ensures
            r == (self.max_entries is None && self.max_age_ms is None && self.max_image_bytes is None),
    {
        self.max_entries.is_none() && self.max_age_ms.is_none() && self.max_image_bytes.is_none()
    }
}

pub const MB: i64 = 1_048_576;

pub open spec fn scaled(o: Option<i64>, f: int) -> Option<int> {
    match o {
        Some(v) => Some(v * f),
        None => None,
    }
}

pub open spec fn opt_fits(o: Option<i64>, f: int) -> bool {
    match o {
        Some(v) => in_i64(v * f),
        None => true,
    }
}

/// Build a `RetentionPolicy` from the app config (days -> ms, MB -> bytes).
pub fn policy_from_config(cfg: &Config) -> (r: RetentionPolicy)
    requires
        opt_fits(cfg.max_age_days, DAY_MS as int),
        opt_fits(cfg.max_image_mb, MB as int),
    ensures
        r.max_entries == cfg.max_entries,
        scaled(r.max_age_ms, 1) == scaled(cfg.max_age_days, DAY_MS as int),
        scaled(r.max_image_bytes, 1) == scaled(cfg.max_image_mb, MB as int),
{
    RetentionPolicy {
        max_entries: cfg.max_entries,
        max_age_ms: match cfg.max_age_days {
            Some(d) => Some(d * DAY_MS),
            None => None,
        },
        max_image_bytes: match cfg.max_image_mb {
            Some(m) => Some(m * MB),
            None => None,
        },
    }
}

/// The window of the stats screen.
#[derive(Debug, Clone, Copy, PartialEq, Eq, Structural)]
pub struct StatsRange {
    pub since_ms: Option<i64>,
    pub now_ms: i64,
}

pub open spec fn range_days(idx: int) -> Option<int> {
    if idx == 0 {
        Some(7)
    } else if idx == 1 {
        Some(30)
    } else if idx == 2 {
        Some(90)
    } else {
        None
    }
}

/// Map a range-selector index to a `StatsRange`: 0=7d, 1=30d, 2=90d, else All.
pub fn range_from_index(idx: i32, now_ms: i64) -> (r: StatsRange)
    requires
        match range_days(idx as int) {
            Some(d) => in_i64(now_ms - d * DAY_MS),
            None => true,
        },
    ensures
        r.now_ms == now_ms,
        scaled(r.since_ms, 1) == match range_days(idx as int) {
            Some(d) => Some(now_ms - d * DAY_MS),
            None => None,
        },
{
    let since_ms = match idx {
        0 => Some(now_ms - 7 * DAY_MS),
        1 => Some(now_ms - 30 * DAY_MS),
        2 => Some(now_ms - 90 * DAY_MS),
        _ => None,
    };
    StatsRange { since_ms, now_ms }
}

} // verus!
