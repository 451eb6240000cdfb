//! Reminder scheduling: when a task's reminder fires, which tasks are ripe, a
//! stable per-task fingerprint, and local UTC-offset parsing. Offsets and
//! clock readings are parameters, so everything here is pure.
use vstd::prelude::*;
use crate::board::copy_task;
use crate::format_time::in_i64;
use crate::num::{
    all_digits, dec, digits_val, fmt_i64, int_literal, lemma_dec_chars, lemma_dec_injective, parse_i64,
    parse_i64_spec,
};
use crate::tasks::Task;
use crate::text::{append_chars, chars_of, slice_chars, string_of, trim, trim_exec};

verus! {

/// Local midnight of the due day plus the time of day, in epoch milliseconds.
pub open spec fn instant_spec(day_epoch_utc: int, due_time_min: Option<int>, offset_secs: int, default_min: int) -> int {
    let mins = match due_time_min {
        Some(m) => m,
        None => default_min,
    };
    day_epoch_utc - offset_secs * 1000 + mins * 60_000
}

/// Every intermediate value of the reminder instant fits in an `i64`.
pub open spec fn instant_fits(day_epoch_utc: int, due_time_min: Option<int>, offset_secs: int, default_min: int) -> bool {
    let mins = match due_time_min {
        Some(m) => m,
        None => default_min,
    };
    &&& in_i64(offset_secs * 1000)
    &&& in_i64(day_epoch_utc - offset_secs * 1000)
    &&& in_i64(mins * 60_000)
    &&& in_i64(instant_spec(day_epoch_utc, due_time_min, offset_secs, default_min))
}

pub open spec fn opt_int(o: Option<i64>) -> Option<int> {
    match o {
        Some(v) => Some(v as int),
        None => None,
    }
}

/// The epoch-ms instant a task's reminder should fire: local midnight of the due
/// day plus the time-of-day (or `default_min` when the task is date-only).
/// `local_midnight = day_epoch_utc − offset_secs*1000`.
pub fn reminder_instant_ms(day_epoch_utc: i64, due_time_min: Option<i64>, offset_secs: i64, default_min: i64) -> (r: i64)
    requires
        instant_fits(day_epoch_utc as int, opt_int(due_time_min), offset_secs as int, default_min as int),
    ensures
        r == instant_spec(day_epoch_utc as int, opt_int(due_time_min), offset_secs as int, default_min as int),
{
    let local_midnight = day_epoch_utc - offset_secs * 1000;
    let mins = match due_time_min {
        Some(m) => m,
        None => default_min,
    };
    local_midnight + mins * 60_000
}

/// When a task's reminder fires, if it has a due date.
pub open spec fn task_instant(t: Task, offset_secs: int, default_min: int) -> Option<int> {
    match t.due_ms {
        Some(d) => Some(instant_spec(d as int, opt_int(t.due_time_min), offset_secs, default_min)),
        None => None,
    }
}

/// Sort key of a task: its reminder instant, the largest `i64` without one.
pub open spec fn task_key(t: Task, offset_secs: int, default_min: int) -> int {
    match task_instant(t, offset_secs, default_min) {
        Some(i) => i,
        None => i64::MAX as int,
    }
}

/// An open task whose reminder instant is at or before `now_ms`.
pub open spec fn ripe(t: Task, now_ms: int, offset_secs: int, default_min: int) -> bool {
    !t.done && match task_instant(t, offset_secs, default_min) {
        Some(i) => i <= now_ms,
        None => false,
    }
}

/// The ripe tasks among the first `i`, in input order.
pub open spec fn ripe_upto(s: Seq<Task>, i: nat, now_ms: int, offset_secs: int, default_min: int) -> Seq<Task>
    decreases i,
{
    if i == 0 {
        seq![]
    } else {
        let r = ripe_upto(s, (i - 1) as nat, now_ms, offset_secs, default_min);
        if ripe(s[i - 1], now_ms, offset_secs, default_min) {
            r.push(s[i - 1])
        } else {
            r
        }
    }
}

/// First position of `r` whose key exceeds `k` (from `j` on): where a task with
/// key `k` goes so that equal keys keep their order.
pub open spec fn key_pos(r: Seq<Task>, k: int, offset_secs: int, default_min: int, j: int) -> int
    decreases r.len() - j,
{
    if j < 0 || j >= r.len() {
        r.len() as int
    } else if task_key(r[j], offset_secs, default_min) > k {
        j
    } else {
        key_pos(r, k, offset_secs, default_min, j + 1)
    }
}

/// Stable sort by reminder instant (insertion of each task after all tasks
/// with an equal or earlier instant).
pub open spec fn by_instant(s: Seq<Task>, offset_secs: int, default_min: int) -> Seq<Task>
    decreases s.len(),
{
    if s.len() == 0 {
        s
    } else {
        let r = by_instant(s.drop_last(), offset_secs, default_min);
        let x = s.last();
        r.insert(key_pos(r, task_key(x, offset_secs, default_min), offset_secs, default_min, 0), x)
    }
}

pub open spec fn due_before_spec(s: Seq<Task>, now_ms: int, offset_secs: int, default_min: int) -> Seq<Task> {
    by_instant(ripe_upto(s, s.len(), now_ms, offset_secs, default_min), offset_secs, default_min)
}

/// The reminder instant of every dated task can be computed without overflow.
pub open spec fn instants_fit(s: Seq<Task>, offset_secs: int, default_min: int) -> bool {
    forall|i: int| 0 <= i < s.len() ==> match (#[trigger] s[i]).due_ms {
        Some(d) => instant_fits(d as int, opt_int(s[i].due_time_min), offset_secs, default_min),
        None => true,
    }
}

proof fn lemma_key_pos_bound(r: Seq<Task>, k: int, o: int, d: int, j: int)
    requires
        0 <= j,
    ensures
        j <= key_pos(r, k, o, d, j) <= r.len() || (j > r.len() && key_pos(r, k, o, d, j) == r.len()),
        0 <= key_pos(r, k, o, d, j) <= r.len(),
        forall|m: int| j <= m < key_pos(r, k, o, d, j) ==> task_key(#[trigger] r[m], o, d) <= k,
        key_pos(r, k, o, d, j) < r.len() ==> task_key(r[key_pos(r, k, o, d, j)], o, d) > k,
    decreases r.len() - j,
{
    if j < r.len() && task_key(r[j], o, d) <= k {
        lemma_key_pos_bound(r, k, o, d, j + 1);
    }
}

proof fn lemma_by_instant_len(s: Seq<Task>, o: int, d: int)
    ensures
        by_instant(s, o, d).len() == s.len(),
    decreases s.len(),
{
    if s.len() > 0 {
        lemma_by_instant_len(s.drop_last(), o, d);
        let r = by_instant(s.drop_last(), o, d);
        lemma_key_pos_bound(r, task_key(s.last(), o, d), o, d, 0);
    }
}

fn task_key_exec(t: &Task, offset_secs: i64, default_min: i64) -> (k: i64)
    requires
        match t.due_ms {
            Some(d) => instant_fits(d as int, opt_int(t.due_time_min), offset_secs as int, default_min as int),
            None => true,
        },
    ensures
        k == task_key(*t, offset_secs as int, default_min as int),
{
    match t.due_ms {
        Some(d) => reminder_instant_ms(d, t.due_time_min, offset_secs, default_min),
        None => i64::MAX,
    }
}

/// Open tasks whose reminder instant is at or before `now_ms`, earliest first.
pub fn due_before(tasks: Vec<Task>, now_ms: i64, offset_secs: i64, default_min: i64) -> (r: Vec<Task>)
    requires
        instants_fit(tasks@, offset_secs as int, default_min as int),
    ensures
        r@ == due_before_spec(tasks@, now_ms as int, offset_secs as int, default_min as int),
{
    let ghost o = offset_secs as int;
    let ghost dm = default_min as int;
    let mut kept: Vec<Task> = Vec::new();
    let mut i: usize = 0;
    while i < tasks.len()
        invariant
            i <= tasks@.len(),
            instants_fit(tasks@, o, dm),
            o == offset_secs,
            dm == default_min,
            kept@ == ripe_upto(tasks@, i as nat, now_ms as int, o, dm),
            forall|m: int| 0 <= m < kept@.len() ==> ripe(#[trigger] kept@[m], now_ms as int, o, dm)
                && (match kept@[m].due_ms {
                    Some(d) => instant_fits(d as int, opt_int(kept@[m].due_time_min), o, dm),
                    None => true,
                }),
        decreases tasks.len() - i,
    {
        let t = &tasks[i];
        assert(*t == tasks@[i as int]);
        if !t.done {
            match t.due_ms {
                Some(d) => {
                    let inst = reminder_instant_ms(d, t.due_time_min, offset_secs, default_min);
                    if inst <= now_ms {
                        kept.push(copy_task(t));
                    }
                },
                None => {},
            }
        }
        i += 1;
    }
    let ghost input = kept@;
    let mut out: Vec<Task> = Vec::new();
    let mut keys: Vec<i64> = Vec::new();
    let mut k: usize = 0;
    assert(input.take(0) =~= Seq::<Task>::empty());
    while k < kept.len()
        invariant
            k <= kept@.len(),
            input == kept@,
            o == offset_secs,
            dm == default_min,
            out@ == by_instant(input.take(k as int), o, dm),
            keys@.len() == out@.len(),
            forall|m: int| 0 <= m < out@.len() ==> keys@[m] == task_key(#[trigger] out@[m], o, dm),
            forall|m: int| 0 <= m < kept@.len() ==> (match (#[trigger] kept@[m]).due_ms {
                Some(d) => instant_fits(d as int, opt_int(kept@[m].due_time_min), o, dm),
                None => true,
            }),
        decreases kept.len() - k,
    {
        let x = &kept[k];
        assert(*x == input[k as int]);
        let key = task_key_exec(x, offset_secs, default_min);
        let mut p: usize = 0;
        while p < out.len() && keys[p] <= key
            invariant
                p <= out@.len(),
                keys@.len() == out@.len(),
                forall|m: int| 0 <= m < out@.len() ==> keys@[m] == task_key(#[trigger] out@[m], o, dm),
                key_pos(out@, key as int, o, dm, 0) == key_pos(out@, key as int, o, dm, p as int),
            decreases out.len() - p,
        {
            assert(keys@[p as int] == task_key(out@[p as int], o, dm));
            p += 1;
        }
        proof {
            if p < out@.len() {
                assert(keys@[p as int] == task_key(out@[p as int], o, dm));
            }
        }
        let ghost before = out@;
        let ghost kb = keys@;
        out.insert(p, copy_task(x));
        keys.insert(p, key);
        assert forall|m: int| 0 <= m < out@.len() implies keys@[m] == task_key(#[trigger] out@[m], o, dm) by {
            if m < p {
                assert(out@[m] == before[m] && keys@[m] == kb[m]);
            } else if m > p {
                assert(out@[m] == before[m - 1] && keys@[m] == kb[m - 1]);
            }
        }
        assert(input.take(k + 1).drop_last() =~= input.take(k as int));
        assert(input.take(k + 1).last() == input[k as int]);
        k += 1;
    }
    assert(input.take(input.len() as int) =~= input);
    out
}

/// Sorted by reminder instant, earliest first.
pub open spec fn sorted_by_instant(s: Seq<Task>, o: int, d: int) -> bool {
    forall|a: int, b: int| 0 <= a < b < s.len() ==> task_key(s[a], o, d) <= task_key(s[b], o, d)
}

proof fn lemma_by_instant_sorted(s: Seq<Task>, o: int, d: int)
    ensures
        sorted_by_instant(by_instant(s, o, d), o, d),
        by_instant(s, o, d).to_multiset() == s.to_multiset(),
    decreases s.len(),
{
    if s.len() > 0 {
        lemma_by_instant_sorted(s.drop_last(), o, d);
        let r = by_instant(s.drop_last(), o, d);
        let x = s.last();
        let kx = task_key(x, o, d);
        lemma_key_pos_bound(r, kx, o, d, 0);
        let p = key_pos(r, kx, o, d, 0);
        let r2 = r.insert(p, x);
        assert forall|a: int, b: int| 0 <= a < b < r2.len() implies task_key(r2[a], o, d)
            <= task_key(r2[b], o, d) by {
            if a < p && b == p {
                assert(r2[a] == r[a]);
            } else if a == p && b > p {
                assert(r2[b] == r[b - 1]);
            } else if a < p && b > p {
                assert(r2[a] == r[a] && r2[b] == r[b - 1]);
            } else if b < p {
                assert(r2[a] == r[a] && r2[b] == r[b]);
            } else if a > p {
                assert(r2[a] == r[a - 1] && r2[b] == r[b - 1]);
            }
        }
        vstd::seq_lib::to_multiset_insert(r, p, x);
        assert(s =~= s.drop_last().push(x));
        vstd::seq_lib::to_multiset_build(s.drop_last(), x);
    }
}

/// The ripe tasks come out earliest first, and each ripe task comes out once:
/// the result is a reordering of the ripe tasks of the input.
pub proof fn law_due_before_sorted(s: Seq<Task>, now_ms: int, o: int, d: int)
    ensures
        sorted_by_instant(due_before_spec(s, now_ms, o, d), o, d),
        due_before_spec(s, now_ms, o, d).to_multiset() == ripe_upto(s, s.len(), now_ms, o, d).to_multiset(),
{
    lemma_by_instant_sorted(ripe_upto(s, s.len(), now_ms, o, d), o, d);
}


// ---------------------------------------------------------------------------
// Fingerprints
// ---------------------------------------------------------------------------

pub open spec fn unwrap_or(o: Option<i64>, d: int) -> int {
    match o {
        Some(v) => v as int,
        None => d,
    }
}

/// `note_id|title|due_ms|due_time_min`, with 0 for no date and -1 for no time.
pub open spec fn fingerprint_spec(t: Task) -> Seq<char> {
    dec(t.note_id as int) + seq!['|'] + t.title@ + seq!['|'] + dec(unwrap_or(t.due_ms, 0)) + seq!['|']
        + dec(unwrap_or(t.due_time_min, -1))
}

/// A stable dedup key: note + title + due date + due time. Survives line moves;
/// changes (re-arms) when the due date or time changes.
pub fn fingerprint(t: &Task) -> (r: String)
    ensures
        r@ == fingerprint_spec(*t),
{
    let mut out = fmt_i64(t.note_id);
    out.push('|');
    append_chars(&mut out, &chars_of(t.title.as_str()));
    out.push('|');
    let d = match t.due_ms {
        Some(v) => v,
        None => 0,
    };
    append_chars(&mut out, &fmt_i64(d));
    out.push('|');
    let m = match t.due_time_min {
        Some(v) => v,
        None => -1,
    };
    append_chars(&mut out, &fmt_i64(m));
    string_of(out.as_slice())
}

/// Two decimal numbers joined by a bar determine both numbers.
proof fn lemma_bar_pair(a: int, b: int, c: int, d: int)
    requires
        dec(a) + seq!['|'] + dec(b) == dec(c) + seq!['|'] + dec(d),
    ensures
        a == c && b == d,
{
    let x = dec(a) + seq!['|'] + dec(b);
    lemma_dec_chars(a);
    lemma_dec_chars(c);
    if dec(a).len() < dec(c).len() {
        assert(x[dec(a).len() as int] == '|');
        assert((dec(c) + seq!['|'] + dec(d))[dec(a).len() as int] == dec(c)[dec(a).len() as int]);
    } else if dec(c).len() < dec(a).len() {
        assert((dec(c) + seq!['|'] + dec(d))[dec(c).len() as int] == '|');
        assert(x[dec(c).len() as int] == dec(a)[dec(c).len() as int]);
    }
    assert(dec(a).len() == dec(c).len());
    assert(dec(a) =~= x.take(dec(a).len() as int));
    assert(dec(c) =~= (dec(c) + seq!['|'] + dec(d)).take(dec(c).len() as int));
    assert(dec(b) =~= x.skip(dec(a).len() as int + 1));
    assert(dec(d) =~= (dec(c) + seq!['|'] + dec(d)).skip(dec(c).len() as int + 1));
    lemma_dec_injective(a, c);
    lemma_dec_injective(b, d);
}

/// Within one note and title, the fingerprint is the same exactly when the
/// due date and due time are (with no date read as 0 and no time as -1):
/// moving the line keeps it, rescheduling re-arms the reminder.
pub proof fn law_fingerprint_rearms(a: Task, b: Task)
    requires
        a.note_id == b.note_id,
        a.title@ == b.title@,
    ensures
        (fingerprint_spec(a) == fingerprint_spec(b)) <==> (unwrap_or(a.due_ms, 0) == unwrap_or(
            b.due_ms,
            0,
        ) && unwrap_or(a.due_time_min, -1) == unwrap_or(b.due_time_min, -1)),
{
    let p = dec(a.note_id as int) + seq!['|'] + a.title@ + seq!['|'];
    let xa = dec(unwrap_or(a.due_ms, 0)) + seq!['|'] + dec(unwrap_or(a.due_time_min, -1));
    let xb = dec(unwrap_or(b.due_ms, 0)) + seq!['|'] + dec(unwrap_or(b.due_time_min, -1));
    assert(fingerprint_spec(a) =~= p + xa);
    assert(fingerprint_spec(b) =~= p + xb);
    if fingerprint_spec(a) == fingerprint_spec(b) {
        assert(xa =~= (p + xa).skip(p.len() as int));
        assert(xb =~= (p + xb).skip(p.len() as int));
        lemma_bar_pair(
            unwrap_or(a.due_ms, 0),
            unwrap_or(a.due_time_min, -1),
            unwrap_or(b.due_ms, 0),
            unwrap_or(b.due_time_min, -1),
        );
    }
}

// ---------------------------------------------------------------------------
// UTC offsets
// ---------------------------------------------------------------------------

/// `+HHMM` / `-HHMM` (after trimming) as seconds east of UTC; each two-digit
/// field is read as `str::parse::<i64>` reads it.
pub open spec fn parse_offset_spec(s: Seq<char>) -> Option<int> {
    let t = trim(s);
    if t.len() >= 5 && (t[0] == '+' || t[0] == '-') {
        match (parse_i64_spec(t.subrange(1, 3)), parse_i64_spec(t.subrange(3, 5))) {
            (Some(hh), Some(mm)) => Some(
                (if t[0] == '+' {
                    1int
                } else {
                    -1int
                }) * (hh * 3600 + mm * 60),
            ),
            _ => None,
        }
    } else {
        None
    }
}

/// A two-character integer literal lies between -9 and 99.
proof fn lemma_two_char_literal(s: Seq<char>)
    requires
        s.len() == 2,
        int_literal(s) is Some,
    ensures
        -9 <= int_literal(s)->0 <= 99,
{
    if s[0] == '+' || s[0] == '-' {
        let b = s.drop_first();
        assert(b.drop_last() =~= Seq::<char>::empty());
        assert(all_digits(b) ==> '0' <= b[0] <= '9');
        assert(digits_val(b) == digits_val(b.drop_last()) * 10 + crate::text::digit_val(b.last()));
    } else {
        assert('0' <= s[0] <= '9' && '0' <= s[1] <= '9');
        let b = s.drop_last();
        assert(b.drop_last() =~= Seq::<char>::empty());
        assert(digits_val(b) == digits_val(b.drop_last()) * 10 + crate::text::digit_val(b.last()));
    }
}

/// Parse a `date +%z` offset ("+HHMM" / "-HHMM") into seconds east of UTC.
pub fn parse_offset(s: &str) -> (r: Option<i64>)
    ensures
        r matches Some(v) ==> parse_offset_spec(s@) == Some(v as int),
        r is None ==> parse_offset_spec(s@) is None,
{
    let t = trim_exec(&chars_of(s));
    if t.len() < 5 {
        return None;
    }
    let sign: i64 = if t[0] == '+' {
        1
    } else if t[0] == '-' {
        -1
    } else {
        return None;
    };
    let hh = match parse_i64(&slice_chars(&t, 1, 3)) {
        Some(v) => v,
        None => {
            return None;
        },
    };
    let mm = match parse_i64(&slice_chars(&t, 3, 5)) {
        Some(v) => v,
        None => {
            return None;
        },
    };
    proof {
        lemma_two_char_literal(t@.subrange(1, 3));
        lemma_two_char_literal(t@.subrange(3, 5));
    }
    Some(sign * (hh * 3600 + mm * 60))
}

/// A reminder fires at local midnight of the due day plus the time of day:
/// each second of UTC offset moves it one second earlier, for a timed and a
/// date-only task alike; a date-only task fires exactly as a task timed at the
/// default minute; and with no offset a date-only task fires the default
/// number of minutes after UTC midnight.
pub proof fn law_reminder_instant(day_epoch_utc: int, due_time_min: Option<int>, offset_secs: int, default_min: int)
    ensures
        instant_spec(day_epoch_utc, due_time_min, offset_secs + 1, default_min) == instant_spec(
            day_epoch_utc,
            due_time_min,
            offset_secs,
            default_min,
        ) - 1000,
        instant_spec(day_epoch_utc, None, offset_secs, default_min) == instant_spec(
            day_epoch_utc,
            Some(default_min),
            offset_secs,
            0,
        ),
        instant_spec(day_epoch_utc, due_time_min, offset_secs, default_min) + offset_secs * 1000
            == instant_spec(day_epoch_utc, due_time_min, 0, default_min),
        instant_spec(day_epoch_utc, None, 0, default_min) == day_epoch_utc + default_min * 60_000,
        due_time_min matches Some(m) ==> instant_spec(day_epoch_utc, due_time_min, 0, default_min)
            == day_epoch_utc + m * 60_000,
{
}

} // verus!
