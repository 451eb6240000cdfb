//! Captions for the stats screen.
use vstd::prelude::*;
use crate::format_time::{abs_date, day_str, DAY_MS};
use crate::num::{dec, fmt_i64};
use crate::text::{append_chars, chars_of, string_of};

verus! {

/// The largest count among the first `i` buckets (0 for none).
pub open spec fn peak_upto(buckets: Seq<(i64, i64)>, i: nat) -> int
    decreases i,
{
    if i == 0 {
        0
    } else if i == 1 {
        buckets[0].1 as int
    } else {
        let p = peak_upto(buckets, (i - 1) as nat);
        if buckets[i - 1].1 > p {
            buckets[i - 1].1 as int
        } else {
            p
        }
    }
}

/// `"<first day> → <last day> · peak <n> copy|copies in a day|week"`, or empty
/// for an empty series.
pub open spec fn caption_spec(buckets: Seq<(i64, i64)>, weekly: bool) -> Seq<char> {
    if buckets.len() == 0 {
        seq![]
    } else {
        let peak = peak_upto(buckets, buckets.len());
        day_str(buckets[0].0 as int / (DAY_MS as int)) + " → "@ + day_str(
            buckets.last().0 as int / (DAY_MS as int),
        ) + " · peak "@ + dec(peak) + " "@ + (if peak == 1 {
            "copy"@
        } else {
            "copies"@
        }) + " in a "@ + (if weekly {
            "week"@
        } else {
            "day"@
        })
    }
}

/// A caption for the "Copies over time" chart: the span it covers and its peak
/// bucket. Without it the bars are anonymous — no dates, no scale.
/// `buckets` is `(start_ms, count)` in chronological order.
pub fn over_time_caption(buckets: &[(i64, i64)], weekly: bool) -> (r: String)
    ensures
        r@ == caption_spec(buckets@, weekly),
{
    let n = buckets.len();
    if n == 0 {
        return String::new();
    }
    let mut peak: i64 = buckets[0].1;
    let mut i: usize = 1;
    while i < n
        invariant
            1 <= i <= n == buckets@.len(),
            peak == peak_upto(buckets@, i as nat),
        decreases n - i,
    {
        if buckets[i].1 > peak {
            peak = buckets[i].1;
        }
        i += 1;
    }
    let mut out = chars_of(abs_date(buckets[0].0).as_str());
    append_chars(&mut out, &chars_of(" → "));
    append_chars(&mut out, &chars_of(abs_date(buckets[n - 1].0).as_str()));
    append_chars(&mut out, &chars_of(" · peak "));
    append_chars(&mut out, &fmt_i64(peak));
    append_chars(&mut out, &chars_of(" "));
    if peak == 1 {
        append_chars(&mut out, &chars_of("copy"));
    } else {
        append_chars(&mut out, &chars_of("copies"));
    }
    append_chars(&mut out, &chars_of(" in a "));
    if weekly {
        append_chars(&mut out, &chars_of("week"));
    } else {
        append_chars(&mut out, &chars_of("day"));
    }
    assert(buckets@.last() == buckets@[n - 1]);
    string_of(out.as_slice())
}

} // verus!
