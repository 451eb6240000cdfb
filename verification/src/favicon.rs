//! Site favicons for link entries: the host a link belongs to, and where its
//! icon is cached. Only the site's own `/favicon.ico` is ever fetched.
use vstd::prelude::*;
use crate::paths::{joined_path, path_join};
use crate::text::{
    append_chars, chars_of, contains, contains_exec, slice_chars, starts_with, starts_with_exec,
    str_lowercase, string_of, to_lowercase,
};

verus! {

/// Index of the first character of `s` from `stops`, or `s.len()`.
pub open spec fn first_of(s: Seq<char>, stops: Seq<char>) -> nat
    decreases s.len(),
{
    if s.len() == 0 || stops.contains(s[0]) {
        0
    } else {
        1 + first_of(s.drop_first(), stops)
    }
}

/// Index just after the last `c` in `s`, or 0.
pub open spec fn after_last(s: Seq<char>, c: char) -> int
    decreases s.len(),
{
    if s.len() == 0 {
        0
    } else if s.last() == c {
        s.len() as int
    } else {
        after_last(s.drop_last(), c)
    }
}

proof fn lemma_first_of(s: Seq<char>, stops: Seq<char>)
    ensures
        first_of(s, stops) <= s.len(),
        forall|j: int| 0 <= j < first_of(s, stops) ==> !stops.contains(#[trigger] s[j]),
        first_of(s, stops) < s.len() ==> stops.contains(s[first_of(s, stops) as int]),
    decreases s.len(),
{
    if s.len() > 0 && !stops.contains(s[0]) {
        lemma_first_of(s.drop_first(), stops);
        assert forall|j: int| 0 <= j < first_of(s, stops) implies !stops.contains(#[trigger] s[j]) by {
            if j > 0 {
                assert(s[j] == s.drop_first()[j - 1]);
            }
        }
    }
}

proof fn lemma_first_of_unique(s: Seq<char>, stops: Seq<char>, i: int)
    requires
        0 <= i <= s.len(),
        forall|j: int| 0 <= j < i ==> !stops.contains(#[trigger] s[j]),
        i < s.len() ==> stops.contains(s[i]),
    ensures
        first_of(s, stops) == i,
    decreases i,
{
    if i > 0 {
        assert(!stops.contains(s[0]));
        assert forall|j: int| 0 <= j < i - 1 implies !stops.contains(#[trigger] s.drop_first()[j]) by {
            assert(s.drop_first()[j] == s[j + 1]);
        }
        lemma_first_of_unique(s.drop_first(), stops, i - 1);
    }
}

proof fn lemma_after_last(s: Seq<char>, c: char)
    ensures
        0 <= after_last(s, c) <= s.len(),
    decreases s.len(),
{
    if s.len() > 0 && s.last() != c {
        lemma_after_last(s.drop_last(), c);
    }
}

/// The host of an http(s) URL, before lowercasing: the authority up to the
/// first `/`, `?` or `#`, after the last `@`, before the first `:`.
pub open spec fn raw_host(url: Seq<char>) -> Option<Seq<char>> {
    let rest = if starts_with(url, "http://"@) {
        Some(url.skip(7))
    } else if starts_with(url, "https://"@) {
        Some(url.skip(8))
    } else {
        None
    };
    match rest {
        None => None,
        Some(r) => {
            let h1 = r.take(first_of(r, seq!['/', '?', '#']) as int);
            let h2 = h1.skip(after_last(h1, '@'));
            Some(h2.take(first_of(h2, seq![':']) as int))
        },
    }
}

/// Lowercased host of an http(s) URL, without port; `None` for non-URLs and
/// for hosts without a dot.
pub open spec fn domain_of_spec(url: Seq<char>) -> Option<Seq<char>> {
    match raw_host(url) {
        Some(h) => if h.len() == 0 || !contains(h, seq!['.']) {
            None
        } else {
            Some(str_lowercase(h))
        },
        None => None,
    }
}

fn first_of_exec(s: &Vec<char>, stops: &Vec<char>) -> (r: usize)
    ensures
        r == first_of(s@, stops@),
{
    let mut i: usize = 0;
    while i < s.len() && !has_char(stops, s[i])
        invariant
            i <= s@.len(),
            forall|j: int| 0 <= j < i ==> !stops@.contains(#[trigger] s@[j]),
        decreases s.len() - i,
    {
        i += 1;
    }
    proof {
        lemma_first_of_unique(s@, stops@, i as int);
    }
    i
}

fn has_char(v: &Vec<char>, c: char) -> (r: bool)
    ensures
        r == v@.contains(c),
{
    let mut i: usize = 0;
    while i < v.len()
        invariant
            i <= v@.len(),
            forall|j: int| 0 <= j < i ==> v@[j] != c,
        decreases v.len() - i,
    {
        if v[i] == c {
            assert(v@[i as int] == c);
            return true;
        }
        i += 1;
    }
    false
}

fn after_last_exec(s: &Vec<char>, c: char) -> (r: usize)
    ensures
        r == after_last(s@, c),
        r <= s@.len(),
{
    let mut k: usize = s.len();
    assert(s@.take(k as int) =~= s@);
    while k > 0 && s[k - 1] != c
        invariant
            k <= s@.len(),
            after_last(s@, c) == after_last(s@.take(k as int), c),
        decreases k,
    {
        assert(s@.take(k as int).drop_last() =~= s@.take(k - 1));
        k -= 1;
    }
    proof {
        if k > 0 {
            assert(s@.take(k as int).last() == c);
        }
    }
    k
}

/// Lowercased host of an http(s) URL, without port. `None` for non-URLs or hosts
/// without a dot (e.g. `localhost`).
pub fn domain_of(url: &str) -> (r: Option<String>)
    ensures
        r matches Some(d) ==> domain_of_spec(url@) == Some(d@),
        r is None ==> domain_of_spec(url@) is None,
{
    let u = chars_of(url);
    proof {
        reveal_strlit("http://");
        reveal_strlit("https://");
    }
    let rest = if starts_with_exec(&u, &chars_of("http://")) {
        slice_chars(&u, 7, u.len())
    } else if starts_with_exec(&u, &chars_of("https://")) {
        slice_chars(&u, 8, u.len())
    } else {
        return None;
    };
    let stops = vec!['/', '?', '#'];
    assert(stops@ =~= seq!['/', '?', '#']);
    let e1 = first_of_exec(&rest, &stops);
    proof {
        lemma_first_of(rest@, stops@);
    }
    let h1 = slice_chars(&rest, 0, e1);
    let a = after_last_exec(&h1, '@');
    let h2 = slice_chars(&h1, a, h1.len());
    let colon = vec![':'];
    assert(colon@ =~= seq![':']);
    let e2 = first_of_exec(&h2, &colon);
    proof {
        lemma_first_of(h2@, colon@);
    }
    let host = slice_chars(&h2, 0, e2);
    assert(rest@ =~= u@.skip(7) || rest@ =~= u@.skip(8));
    assert(h1@ =~= rest@.take(e1 as int));
    assert(h2@ =~= h1@.skip(a as int));
    assert(host@ =~= h2@.take(e2 as int));
    let dot = vec!['.'];
    assert(dot@ =~= seq!['.']);
    if host.len() == 0 || !contains_exec(&host, &dot) {
        return None;
    }
    let hs = string_of(host.as_slice());
    Some(to_lowercase(hs.as_str()))
}

/// `<dir>/<domain>.png`.
pub fn favicon_cache_path(dir: &str, domain: &str) -> (r: String)
    ensures
        r@ == joined_path(dir@, domain@ + ".png"@),
{
    let mut name = chars_of(domain);
    append_chars(&mut name, &chars_of(".png"));
    let n = string_of(name.as_slice());
    path_join(dir, n.as_str())
}

} // verus!
