//! Crash diagnostics: how the previous run ended, the crash-timestamp log and
//! crash-loop detection, the rate limit of the panic alert, and AppleScript
//! string quoting. The files themselves are read and written by the caller.
use vstd::prelude::*;
use crate::format_time::in_i64;
use crate::num::{dec, fmt_i64, lemma_dec_chars, lemma_parse_dec, parse_i64, parse_i64_spec};
use crate::text::{
    chars_eq, chars_of, join, join_exec, lemma_join_split, lines, lines_exec, split_on,
    string_of, strip_cr, trim, trim_exec, views, lead_ws, trail_ws,
};

verus! {

/// Crash-loop window: crashes this close to now count.
pub const CRASH_WINDOW_MS: i64 = 60_000;

/// Crash-loop threshold: this many crashes within the window make a loop.
pub const CRASH_THRESHOLD: usize = 3;

/// How many crash timestamps the log keeps.
pub const CRASH_KEEP: usize = 10;

/// Minimum time between two panic alerts.
pub const ALERT_GAP_MS: i64 = 30_000;

/// How the previous run ended, read from the session-state file.
#[derive(Debug, Clone, Copy, PartialEq, Eq, Structural)]
pub enum PrevExit {
    /// No state file — first run (or fresh data dir).
    FirstRun,
    /// Previous run wrote "clean" on a real quit.
    Clean,
    /// State was still "running" ⇒ the previous run died abnormally.
    Crashed,
}

pub open spec fn prev_exit_spec(contents: Option<Seq<char>>) -> PrevExit {
    match contents {
        None => PrevExit::FirstRun,
        Some(s) => if trim(s) == "clean"@ {
            PrevExit::Clean
        } else {
            PrevExit::Crashed
        },
    }
}

/// How the previous run ended, from the session-state file's contents (`None`
/// when there is no readable file): "clean" is a clean quit, anything else
/// ("running" included) an abnormal end.
pub fn prev_exit_of(contents: Option<&str>) -> (r: PrevExit)
    ensures
        r == prev_exit_spec(
            match contents {
                Some(s) => Some(s@),
                None => None,
            },
        ),
{
    match contents {
        None => PrevExit::FirstRun,
        Some(s) => {
            if chars_eq(&trim_exec(&chars_of(s)), &chars_of("clean")) {
                PrevExit::Clean
            } else {
                PrevExit::Crashed
            }
        },
    }
}

/// Number of timestamps within `window_ms` before `now_ms` (not after it)
/// among the first `i`.
pub open spec fn recent_count(times: Seq<i64>, now_ms: int, window_ms: int, i: nat) -> nat
    decreases i,
{
    if i == 0 {
        0
    } else {
        recent_count(times, now_ms, window_ms, (i - 1) as nat) + if times[i - 1] <= now_ms
            && now_ms - times[i - 1] <= window_ms {
            1nat
        } else {
            0nat
        }
    }
}

/// True when ≥`threshold` of `times` fall within `window_ms` before `now_ms`;
/// a time later than `now_ms` is not counted.
pub fn is_crash_loop(times: &[i64], now_ms: i64, window_ms: i64, threshold: usize) -> (r: bool)
    requires
        forall|i: int| 0 <= i < times@.len() ==> in_i64(now_ms - #[trigger] times@[i]),
    ensures
        r == (recent_count(times@, now_ms as int, window_ms as int, times@.len()) >= threshold),
{
    let mut n: usize = 0;
    let mut i: usize = 0;
    while i < times.len()
        invariant
            i <= times@.len(),
            n == recent_count(times@, now_ms as int, window_ms as int, i as nat),
            n <= i,
            forall|j: int| 0 <= j < times@.len() ==> in_i64(now_ms - #[trigger] times@[j]),
        decreases times.len() - i,
    {
        let t = times[i];
        assert(in_i64(now_ms - times@[i as int]));
        if t <= now_ms && now_ms - t <= window_ms {
            n = n + 1;
        }
        i += 1;
    }
    n >= threshold
}

/// The crash log after recording a crash at `at_ms`: the most recent
/// `CRASH_KEEP` timestamps, oldest first.
pub open spec fn record_spec(times: Seq<i64>, at_ms: i64) -> Seq<i64> {
    let all = times.push(at_ms);
    if all.len() > CRASH_KEEP {
        all.skip(all.len() - CRASH_KEEP)
    } else {
        all
    }
}

/// Append `at_ms` to the crash timestamps, keeping only the most recent 10.
pub fn record_crash(times: &Vec<i64>, at_ms: i64) -> (r: Vec<i64>)
    ensures
        r@ == record_spec(times@, at_ms),
{
    let mut all = times.clone();
    all.push(at_ms);
    let start: usize = if all.len() > CRASH_KEEP {
        all.len() - CRASH_KEEP
    } else {
        0
    };
    let mut r: Vec<i64> = Vec::new();
    let mut i: usize = start;
    while i < all.len()
        invariant
            start <= i <= all@.len(),
            r@ == all@.subrange(start as int, i as int),
        decreases all.len() - i,
    {
        r.push(all[i]);
        assert(all@.subrange(start as int, i + 1) =~= all@.subrange(start as int, i as int).push(
            all@[i as int],
        ));
        i += 1;
    }
    assert(all@ =~= times@.push(at_ms));
    assert(all@.subrange(start as int, all@.len() as int) =~= record_spec(times@, at_ms));
    r
}

/// The decimal texts of the timestamps.
pub open spec fn dec_lines(times: Seq<i64>) -> Seq<Seq<char>> {
    times.map_values(|t: i64| dec(t as int))
}

/// The crash log's text: one decimal timestamp per line.
pub open spec fn crash_text_spec(times: Seq<i64>) -> Seq<char> {
    join(dec_lines(times), seq!['\n'])
}

/// The timestamps read from the lines `ls[..i]`: each line, trimmed, that
/// parses as an `i64`; other lines are skipped.
pub open spec fn parse_lines(ls: Seq<Seq<char>>, i: nat) -> Seq<i64>
    decreases i,
{
    if i == 0 {
        seq![]
    } else {
        let r = parse_lines(ls, (i - 1) as nat);
        match parse_i64_spec(trim(ls[i - 1])) {
            Some(v) => r.push(v as i64),
            None => r,
        }
    }
}

pub open spec fn crash_times_spec(s: Seq<char>) -> Seq<i64> {
    parse_lines(lines(s), lines(s).len())
}

/// The text written to the crash log for `times`.
pub fn crash_log_text(times: &[i64]) -> (r: String)
    ensures
        r@ == crash_text_spec(times@),
{
    let mut parts: Vec<Vec<char>> = Vec::new();
    let mut i: usize = 0;
    while i < times.len()
        invariant
            i <= times@.len(),
            views(parts@) == dec_lines(times@).take(i as int),
        decreases times.len() - i,
    {
        let ghost p0 = views(parts@);
        let d = fmt_i64(times[i]);
        parts.push(d);
        assert(views(parts@) =~= p0.push(d@));
        assert(dec_lines(times@).take(i + 1) =~= dec_lines(times@).take(i as int).push(
            dec(times@[i as int] as int),
        ));
        i += 1;
    }
    assert(dec_lines(times@).take(times@.len() as int) =~= dec_lines(times@));
    let sep = vec!['\n'];
    assert(sep@ =~= seq!['\n']);
    string_of(join_exec(&parts, &sep).as_slice())
}

/// Read the crash timestamps back from the crash log's text.
pub fn parse_crash_times(s: &str) -> (r: Vec<i64>)
    ensures
        r@ == crash_times_spec(s@),
{
    let ls = lines_exec(&chars_of(s));
    let mut r: Vec<i64> = Vec::new();
    let mut i: usize = 0;
    while i < ls.len()
        invariant
            i <= ls@.len(),
            views(ls@) == lines(s@),
            r@ == parse_lines(views(ls@), i as nat),
        decreases ls.len() - i,
    {
        assert(views(ls@)[i as int] == ls@[i as int]@);
        match parse_i64(&trim_exec(&ls[i])) {
            Some(v) => r.push(v),
            None => {},
        }
        i += 1;
    }
    r
}

proof fn lemma_trim_plain(s: Seq<char>)
    requires
        forall|j: int| 0 <= j < s.len() ==> !crate::text::char_is_whitespace(#[trigger] s[j]),
    ensures
        trim(s) == s,
{
    crate::text::lemma_lead_ws_bound(s);
    crate::text::lemma_trail_ws_bound(s);
    if s.len() > 0 {
        assert(lead_ws(s) == 0);
        assert(trail_ws(s.skip(0)) == 0) by {
            assert(s.skip(0) =~= s);
        }
    }
    assert(s.skip(lead_ws(s) as int) =~= s);
}

proof fn lemma_parse_lines_dec(times: Seq<i64>, i: nat)
    requires
        i <= times.len(),
    ensures
        parse_lines(dec_lines(times), i) == times.take(i as int),
    decreases i,
{
    if i > 0 {
        lemma_parse_lines_dec(times, (i - 1) as nat);
        let t = times[i - 1];
        lemma_dec_chars(t as int);
        lemma_trim_plain(dec(t as int));
        lemma_parse_dec(t as int);
        assert(times.take(i as int) =~= times.take(i - 1).push(t));
    }
}

/// Writing the crash log and reading it back gives the same timestamps, in
/// the same order: what `record_crash` keeps is what the next read sees.
pub proof fn law_crash_log_round_trip(times: Seq<i64>)
    ensures
        crash_times_spec(crash_text_spec(times)) == times,
{
    let ds = dec_lines(times);
    if times.len() == 0 {
        assert(ds =~= Seq::<Seq<char>>::empty());
        assert(split_on(Seq::<char>::empty(), '\n') =~= seq![Seq::<char>::empty()]);
        assert(lines(crash_text_spec(times)) =~= Seq::<Seq<char>>::empty());
    } else {
        assert forall|k: int, j: int| 0 <= k < ds.len() && 0 <= j < ds[k].len() implies ds[k][j]
            != '\n' && ds[k][j] != '\r' by {
            lemma_dec_chars(times[k] as int);
        }
        lemma_join_split(ds, '\n');
        let p = split_on(crash_text_spec(times), '\n');
        assert(p == ds);
        crate::num::lemma_dec_nat_len(0);
        assert(ds.last().len() > 0) by {
            lemma_dec_chars(times.last() as int);
            if times.last() < 0 {
                assert(dec(times.last() as int).len() >= 1);
            } else {
                crate::num::lemma_dec_nat_len(times.last() as nat);
            }
        }
        assert forall|k: int| 0 <= k < ds.drop_last().len() implies strip_cr(
            #[trigger] ds.drop_last()[k],
        ) == ds.drop_last()[k] by {
            let d = ds[k];
            if d.len() > 0 {
                assert(d.last() != '\r');
            }
        }
        assert(lines(crash_text_spec(times)) =~= ds);
    }
    lemma_parse_lines_dec(times, times.len());
    assert(times.take(times.len() as int) =~= times);
}

/// Record a crash at `now_ms` and report whether the process is in a crash
/// loop: the new crash log, and whether `CRASH_THRESHOLD` of its timestamps
/// lie within `CRASH_WINDOW_MS` of now.
pub fn record_and_check_loop(times: &Vec<i64>, now_ms: i64) -> (r: (Vec<i64>, bool))
    requires
        forall|i: int| 0 <= i < times@.len() ==> in_i64(now_ms - #[trigger] times@[i]),
    ensures
        r.0@ == record_spec(times@, now_ms),
        r.1 == (recent_count(r.0@, now_ms as int, CRASH_WINDOW_MS as int, r.0@.len())
            >= CRASH_THRESHOLD),
{
    let kept = record_crash(times, now_ms);
    assert forall|i: int| 0 <= i < kept@.len() implies in_i64(now_ms - #[trigger] kept@[i]) by {
        let all = times@.push(now_ms);
        if all.len() > CRASH_KEEP {
            assert(kept@[i] == all[i + all.len() - CRASH_KEEP]);
        } else {
            assert(kept@[i] == all[i]);
        }
        if kept@[i] != now_ms {
        }
    }
    let looping = is_crash_loop(kept.as_slice(), now_ms, CRASH_WINDOW_MS, CRASH_THRESHOLD);
    (kept, looping)
}

/// The alert gate: whether an alert at `now_ms` may show with the last one
/// at `last_alert_ms`, and the last-alert time afterwards.
pub open spec fn alert_gate(now_ms: int, last_alert_ms: int) -> (bool, int) {
    if now_ms - last_alert_ms >= ALERT_GAP_MS {
        (true, now_ms)
    } else {
        (false, last_alert_ms)
    }
}

/// Rate-limit gate for the panic alert, at `now_ms` with the last alert at
/// `last_alert_ms`: whether to alert now, and the new last-alert time.
pub fn alert_allowed(now_ms: i64, last_alert_ms: i64) -> (r: (bool, i64))
    requires
        in_i64(now_ms - last_alert_ms),
    ensures
        (r.0, r.1 as int) == alert_gate(now_ms as int, last_alert_ms as int),
{
    if now_ms - last_alert_ms >= ALERT_GAP_MS {
        (true, now_ms)
    } else {
        (false, last_alert_ms)
    }
}

/// Alerts are rate limited: once an alert is shown at `t1`, another is shown
/// at `t2` exactly when `t2` is at least `ALERT_GAP_MS` after `t1`.
pub proof fn law_alert_gap(last: int, t1: int, t2: int)
    requires
        alert_gate(t1, last).0,
    ensures
        alert_gate(t2, alert_gate(t1, last).1).0 <==> t2 - t1 >= ALERT_GAP_MS,
{
}

/// `s` escaped for an AppleScript double-quoted literal: backslashes doubled,
/// double quotes preceded by a backslash, the whole in double quotes.
pub open spec fn applescript_escape(s: Seq<char>) -> Seq<char>
    decreases s.len(),
{
    if s.len() == 0 {
        seq![]
    } else {
        let c = s.last();
        applescript_escape(s.drop_last()) + if c == '\\' {
            seq!['\\', '\\']
        } else if c == '"' {
            seq!['\\', '"']
        } else {
            seq![c]
        }
    }
}

pub open spec fn applescript_str_spec(s: Seq<char>) -> Seq<char> {
    seq!['"'] + applescript_escape(s) + seq!['"']
}

/// Escape a string for embedding in an AppleScript double-quoted literal.
pub fn as_applescript_str(s: &str) -> (r: String)
    ensures
        r@ == applescript_str_spec(s@),
{
    let v = chars_of(s);
    let mut out: Vec<char> = Vec::new();
    out.push('"');
    let mut i: usize = 0;
    while i < v.len()
        invariant
            i <= v@.len(),
            out@ == seq!['"'] + applescript_escape(v@.take(i as int)),
        decreases v.len() - i,
    {
        let c = v[i];
        assert(v@.take(i + 1).drop_last() =~= v@.take(i as int));
        if c == '\\' {
            out.push('\\');
            out.push('\\');
        } else if c == '"' {
            out.push('\\');
            out.push('"');
        } else {
            out.push(c);
        }
        assert(out@ =~= seq!['"'] + applescript_escape(v@.take(i + 1)));
        i += 1;
    }
    out.push('"');
    assert(v@.take(v@.len() as int) =~= v@);
    string_of(out.as_slice())
}

} // verus!
