//! The note link graph's shape: which notes are nodes and which pairs are
//! edges. Notes link by `[[name]]` (case-insensitive, trimmed); edges are
//! undirected, deduplicated and never loops; notes with no link in or out are
//! left out, and at most 150 notes (the best connected) are kept. Laying the
//! nodes out on the plane is the caller's part.
use vstd::prelude::*;
use crate::notes_view::{string_views, wiki_links, wiki_links_spec};
use crate::text::{
    chars_eq, chars_of, str_lowercase, string_of, to_lowercase, trim, trim_exec, views,
};

verus! {

/// Most notes the graph shows.
pub const MAX_NODES: usize = 150;

/// An edge between two nodes, by index into the returned nodes.
#[derive(Debug, Clone, Copy)]
pub struct GraphEdge {
    pub a: usize,
    pub b: usize,
}

/// The last note whose key (trimmed, lowercased name) is `k`, among the first `n`.
pub open spec fn last_index(ks: Seq<Seq<char>>, k: Seq<char>, n: int) -> Option<int>
    decreases n,
{
    if n <= 0 {
        None
    } else if ks[n - 1] == k {
        Some(n - 1)
    } else {
        last_index(ks, k, n - 1)
    }
}

/// The edge a link from note `i` to the note keyed `tk` makes, if any.
pub open spec fn link_edge(ks: Seq<Seq<char>>, i: int, tk: Seq<char>) -> Option<(usize, usize)> {
    match last_index(ks, tk, ks.len() as int) {
        Some(j) => if j == i {
            None
        } else if i < j {
            Some((i as usize, j as usize))
        } else {
            Some((j as usize, i as usize))
        },
        None => None,
    }
}

/// Edges made by the first `m` links of note `i`.
pub open spec fn note_edges(ks: Seq<Seq<char>>, i: int, links: Seq<Seq<char>>, m: nat) -> Seq<(usize, usize)>
    decreases m,
{
    if m == 0 {
        seq![]
    } else {
        let r = note_edges(ks, i, links, (m - 1) as nat);
        match link_edge(ks, i, str_lowercase(trim(links[m - 1]))) {
            Some(e) => r.push(e),
            None => r,
        }
    }
}

/// Edges made by the first `i` notes (with repeats).
pub open spec fn all_edges(notes: Seq<(i64, String, String)>, ks: Seq<Seq<char>>, i: nat) -> Seq<(usize, usize)>
    decreases i,
{
    if i == 0 {
        seq![]
    } else {
        let links = wiki_links_spec(notes[i - 1].2@);
        all_edges(notes, ks, (i - 1) as nat) + note_edges(ks, i - 1, links, links.len())
    }
}

/// Keys of the notes: names trimmed and lowercased.
pub open spec fn note_keys(notes: Seq<(i64, String, String)>) -> Seq<Seq<char>> {
    notes.map_values(|n: (i64, String, String)| str_lowercase(trim(n.1@)))
}

pub open spec fn pair_lt(x: (usize, usize), y: (usize, usize)) -> bool {
    x.0 < y.0 || (x.0 == y.0 && x.1 < y.1)
}

/// Strictly increasing, first by `a` then by `b`.
pub open spec fn strictly_sorted(e: Seq<(usize, usize)>) -> bool {
    forall|x: int, y: int| 0 <= x < y < e.len() ==> pair_lt(e[x], e[y])
}

/// Number of edges among `e[..m]` touching note `i`.
pub open spec fn degree(e: Seq<(usize, usize)>, i: int, m: nat) -> nat
    decreases m,
{
    if m == 0 {
        0
    } else {
        degree(e, i, (m - 1) as nat) + if e[m - 1].0 == i || e[m - 1].1 == i {
            1nat
        } else {
            0nat
        }
    }
}

/// Notes `0..n` with at least one edge, ascending.
pub open spec fn linked(e: Seq<(usize, usize)>, n: nat) -> Seq<int>
    decreases n,
{
    if n == 0 {
        seq![]
    } else {
        let r = linked(e, (n - 1) as nat);
        if degree(e, n - 1, e.len()) > 0 {
            r.push(n - 1)
        } else {
            r
        }
    }
}

/// Note `j` ranks before note `i`: more edges, else a smaller id, else earlier.
pub open spec fn ranks_before(e: Seq<(usize, usize)>, ids: Seq<i64>, j: int, i: int) -> bool {
    let dj = degree(e, j, e.len());
    let di = degree(e, i, e.len());
    dj > di || (dj == di && (ids[j] < ids[i] || (ids[j] == ids[i] && j < i)))
}

/// Number of notes among `k[..m]` that rank before note `i`.
pub open spec fn rank(e: Seq<(usize, usize)>, ids: Seq<i64>, k: Seq<int>, i: int, m: nat) -> nat
    decreases m,
{
    if m == 0 {
        0
    } else {
        rank(e, ids, k, i, (m - 1) as nat) + if ranks_before(e, ids, k[m - 1], i) {
            1nat
        } else {
            0nat
        }
    }
}

/// The notes of `k[..m]` that rank among the first `MAX_NODES` of `k`.
pub open spec fn top(e: Seq<(usize, usize)>, ids: Seq<i64>, k: Seq<int>, m: nat) -> Seq<int>
    decreases m,
{
    if m == 0 {
        seq![]
    } else {
        let r = top(e, ids, k, (m - 1) as nat);
        if rank(e, ids, k, k[m - 1], k.len()) < MAX_NODES {
            r.push(k[m - 1])
        } else {
            r
        }
    }
}

/// The notes shown, ascending: the linked ones, or the best connected
/// `MAX_NODES` of them when there are more.
pub open spec fn kept(e: Seq<(usize, usize)>, ids: Seq<i64>, n: nat) -> Seq<int> {
    let k = linked(e, n);
    if k.len() <= MAX_NODES {
        k
    } else {
        top(e, ids, k, k.len())
    }
}

/// Position of the first `x` in `k` (`k.len()` when absent).
pub open spec fn first_pos(k: Seq<int>, x: int) -> int
    decreases k.len(),
{
    if k.len() == 0 || k[0] == x {
        0
    } else {
        1 + first_pos(k.drop_first(), x)
    }
}

/// The edges among `e[..m]` between shown notes, renumbered by position in `k`.
pub open spec fn shown_edges(e: Seq<(usize, usize)>, k: Seq<int>, m: nat) -> Seq<(int, int)>
    decreases m,
{
    if m == 0 {
        seq![]
    } else {
        let r = shown_edges(e, k, (m - 1) as nat);
        let (a, b) = e[m - 1];
        if k.contains(a as int) && k.contains(b as int) {
            r.push((first_pos(k, a as int), first_pos(k, b as int)))
        } else {
            r
        }
    }
}

pub open spec fn ids_of(notes: Seq<(i64, String, String)>) -> Seq<i64> {
    notes.map_values(|n: (i64, String, String)| n.0)
}

/// The graph of `notes` given its deduplicated, sorted edge list `e`: nodes
/// `(id, name)` of the shown notes in note order, and the edges between them.
pub open spec fn graph_spec(notes: Seq<(i64, String, String)>, e: Seq<(usize, usize)>) -> (
    Seq<(i64, Seq<char>)>,
    Seq<(int, int)>,
) {
    let k = kept(e, ids_of(notes), notes.len());
    (k.map_values(|i: int| (notes[i].0, notes[i].1@)), shown_edges(e, k, e.len()))
}

/// Same elements, as sets.
pub open spec fn same_set(a: Seq<(usize, usize)>, b: Seq<(usize, usize)>) -> bool {
    forall|x: (usize, usize)| a.contains(x) <==> b.contains(x)
}

fn keys_of(notes: &[(i64, String, String)]) -> (r: Vec<Vec<char>>)
    ensures
        views(r@) == note_keys(notes@),
{
    let mut r: Vec<Vec<char>> = Vec::new();
    let mut i: usize = 0;
    while i < notes.len()
        invariant
            i <= notes@.len(),
            views(r@) == note_keys(notes@).take(i as int),
        decreases notes.len() - i,
    {
        let t = trim_exec(&chars_of(notes[i].1.as_str()));
        let ts = string_of(t.as_slice());
        let k = chars_of(to_lowercase(ts.as_str()).as_str());
        let ghost r0 = views(r@);
        r.push(k);
        assert(views(r@) =~= r0.push(k@));
        assert(note_keys(notes@).take(i + 1) =~= note_keys(notes@).take(i as int).push(k@));
        i += 1;
    }
    assert(note_keys(notes@).take(notes@.len() as int) =~= note_keys(notes@));
    r
}

fn last_index_exec(ks: &Vec<Vec<char>>, k: &Vec<char>) -> (r: Option<usize>)
    ensures
        match r {
            Some(j) => last_index(views(ks@), k@, ks@.len() as int) == Some(j as int) && j < ks@.len(),
            None => last_index(views(ks@), k@, ks@.len() as int) is None,
        },
{
    let mut n: usize = ks.len();
    while n > 0
        invariant
            n <= ks@.len(),
            last_index(views(ks@), k@, ks@.len() as int) == last_index(views(ks@), k@, n as int),
        decreases n,
    {
        assert(views(ks@)[n - 1] == ks@[n - 1]@);
        if chars_eq(&ks[n - 1], k) {
            return Some(n - 1);
        }
        n -= 1;
    }
    None
}

proof fn lemma_last_index_bound(ks: Seq<Seq<char>>, k: Seq<char>, n: int)
    ensures
        last_index(ks, k, n) matches Some(j) ==> 0 <= j < n,
    decreases n,
{
    if n > 0 && ks[n - 1] != k {
        lemma_last_index_bound(ks, k, n - 1);
    }
}

fn pair_lt_exec(x: (usize, usize), y: (usize, usize)) -> (r: bool)
    ensures
        r == pair_lt(x, y),
{
    x.0 < y.0 || (x.0 == y.0 && x.1 < y.1)
}

/// Adds `x` to a strictly sorted edge list, keeping it strictly sorted.
#[verifier::spinoff_prover]
fn insert_edge(e: Vec<(usize, usize)>, x: (usize, usize)) -> (r: Vec<(usize, usize)>)
    requires
        strictly_sorted(e@),
    ensures
        strictly_sorted(r@),
        forall|y: (usize, usize)| r@.contains(y) <==> (e@.contains(y) || y == x),
{
    let mut p: usize = 0;
    while p < e.len() && pair_lt_exec(e[p], x)
        invariant
            p <= e@.len(),
            forall|m: int| 0 <= m < p ==> pair_lt(e@[m], x),
        decreases e.len() - p,
    {
        p += 1;
    }
    if p < e.len() && e[p].0 == x.0 && e[p].1 == x.1 {
        assert(e@[p as int] == x);
        assert forall|y: (usize, usize)| e@.contains(y) <==> (e@.contains(y) || y == x) by {
            if y == x {
                assert(e@[p as int] == y);
            }
        }
        return e;
    }
    let ghost old_e = e@;
    let mut r = e;
    r.insert(p, x);
    assert forall|a: int, b: int| 0 <= a < b < r@.len() implies pair_lt(r@[a], r@[b]) by {
        if a < p && b == p {
        } else if a == p && b > p {
            assert(r@[b] == old_e[b - 1]);
            if b - 1 > p {
                assert(pair_lt(old_e[p as int], old_e[b - 1]));
            }
        } else if a < p && b > p {
            assert(r@[a] == old_e[a] && r@[b] == old_e[b - 1]);
        } else if b < p {
            assert(r@[a] == old_e[a] && r@[b] == old_e[b]);
        } else {
            assert(r@[a] == old_e[a - 1] && r@[b] == old_e[b - 1]);
        }
    }
    assert forall|y: (usize, usize)| r@.contains(y) <==> (old_e.contains(y) || y == x) by {
        if r@.contains(y) {
            let m = choose|m: int| 0 <= m < r@.len() && r@[m] == y;
            if m < p {
                assert(old_e[m] == y);
            } else if m > p {
                assert(old_e[m - 1] == y);
            }
        }
        if old_e.contains(y) {
            let m = choose|m: int| 0 <= m < old_e.len() && old_e[m] == y;
            if m < p {
                assert(r@[m] == y);
            } else {
                assert(r@[m + 1] == y);
            }
        }
        if y == x {
            assert(r@[p as int] == y);
        }
    }
    r
}

/// Every edge is `(a, b)` with `a < b < n`.
pub open spec fn edges_in(e: Seq<(usize, usize)>, n: int) -> bool {
    forall|m: int| 0 <= m < e.len() ==> (#[trigger] e[m]).0 < e[m].1 && (e[m].1 as int) < n
}

/// The deduplicated, sorted edge list of `notes`.
fn edge_list(notes: &[(i64, String, String)], ks: &Vec<Vec<char>>) -> (e: Vec<(usize, usize)>)
    requires
        views(ks@) == note_keys(notes@),
    ensures
        strictly_sorted(e@),
        same_set(e@, all_edges(notes@, views(ks@), notes@.len())),
        edges_in(e@, notes@.len() as int),
{
    let ghost kv = views(ks@);
    assert(views(ks@).len() == ks@.len());
    assert(note_keys(notes@).len() == notes@.len());
    let mut e: Vec<(usize, usize)> = Vec::new();
    let mut i: usize = 0;
    while i < notes.len()
        invariant
            i <= notes@.len() == ks@.len(),
            kv == views(ks@),
            strictly_sorted(e@),
            same_set(e@, all_edges(notes@, kv, i as nat)),
            edges_in(e@, notes@.len() as int),
        decreases notes.len() - i,
    {
        let links = wiki_links(notes[i].2.as_str());
        let ghost lv = string_views(links@);
        let ghost base = all_edges(notes@, kv, i as nat);
        let mut m: usize = 0;
        while m < links.len()
            invariant
                i < notes@.len() == ks@.len(),
                m <= links@.len(),
                kv == views(ks@),
                lv == string_views(links@),
                lv == wiki_links_spec(notes@[i as int].2@),
                strictly_sorted(e@),
                same_set(e@, base + note_edges(kv, i as int, lv, m as nat)),
                edges_in(e@, notes@.len() as int),
            decreases links.len() - m,
        {
            assert(lv[m as int] == links@[m as int]@);
            let t = trim_exec(&chars_of(links[m].as_str()));
            let ts = string_of(t.as_slice());
            let tk = chars_of(to_lowercase(ts.as_str()).as_str());
            let ghost before = base + note_edges(kv, i as int, lv, m as nat);
            match last_index_exec(ks, &tk) {
                Some(j) => {
                    if j != i {
                        let x = if i < j {
                            (i, j)
                        } else {
                            (j, i)
                        };
                        let ghost e0 = e@;
                        e = insert_edge(e, x);
                        assert(base + note_edges(kv, i as int, lv, (m + 1) as nat) =~= before.push(x));
                        assert forall|y: (usize, usize)| e@.contains(y) <==> before.push(x).contains(y) by {
                            if before.push(x).contains(y) && y != x {
                                let q = choose|q: int| 0 <= q < before.push(x).len() && before.push(x)[q] == y;
                                assert(before[q] == y);
                            }
                            if before.contains(y) {
                                let q = choose|q: int| 0 <= q < before.len() && before[q] == y;
                                assert(before.push(x)[q] == y);
                            }
                            if y == x {
                                assert(before.push(x)[before.len() as int] == y);
                            }
                        }
                        assert forall|q: int| 0 <= q < e@.len() implies (#[trigger] e@[q]).0 < e@[q].1 && (e@[q].1 as int) < notes@.len() by {
                            assert(e@.contains(e@[q]));
                            if e@[q] != x {
                                assert(e0.contains(e@[q]));
                                let w = choose|w: int| 0 <= w < e0.len() && e0[w] == e@[q];
                                assert(e0[w].0 < e0[w].1);
                            }
                        }
                    } else {
                        assert(base + note_edges(kv, i as int, lv, (m + 1) as nat) =~= before);
                    }
                },
                None => {
                    assert(base + note_edges(kv, i as int, lv, (m + 1) as nat) =~= before);
                },
            }
            m += 1;
        }
        assert(all_edges(notes@, kv, (i + 1) as nat) =~= base + note_edges(kv, i as int, lv, lv.len()));
        i += 1;
    }
    e
}

proof fn lemma_degree_bound(e: Seq<(usize, usize)>, i: int, m: nat)
    ensures
        degree(e, i, m) <= m,
    decreases m,
{
    if m > 0 {
        lemma_degree_bound(e, i, (m - 1) as nat);
    }
}

/// Degree of each of the `n` notes.
fn degrees(e: &Vec<(usize, usize)>, n: usize) -> (d: Vec<usize>)
    requires
        edges_in(e@, n as int),
    ensures
        d@.len() == n,
        forall|i: int| 0 <= i < n ==> d@[i] == degree(e@, i, e@.len()),
{
    let mut d: Vec<usize> = Vec::new();
    let mut i: usize = 0;
    while i < n
        invariant
            i <= n,
            d@.len() == i,
            forall|q: int| 0 <= q < i ==> d@[q] == 0,
        decreases n - i,
    {
        d.push(0);
        i += 1;
    }
    let mut m: usize = 0;
    while m < e.len()
        invariant
            m <= e@.len(),
            d@.len() == n,
            edges_in(e@, n as int),
            forall|q: int| 0 <= q < n ==> d@[q] == degree(e@, q, m as nat),
        decreases e.len() - m,
    {
        let (a, b) = e[m];
        assert(a < b && (b as int) < n);
        proof {
            lemma_degree_bound(e@, a as int, m as nat);
            lemma_degree_bound(e@, b as int, m as nat);
        }
        let da = d[a];
        d.set(a, da + 1);
        let db = d[b];
        d.set(b, db + 1);
        m += 1;
    }
    d
}

pub open spec fn ints(v: Seq<usize>) -> Seq<int> {
    v.map_values(|x: usize| x as int)
}

/// Notes with at least one edge, ascending.
fn linked_exec(d: &Vec<usize>, e: Ghost<Seq<(usize, usize)>>) -> (k: Vec<usize>)
    requires
        forall|i: int| 0 <= i < d@.len() ==> d@[i] == degree(e@, i, e@.len()),
    ensures
        ints(k@) == linked(e@, d@.len()),
        forall|q: int| 0 <= q < k@.len() ==> (k@[q] as int) < d@.len(),
{
    let mut k: Vec<usize> = Vec::new();
    let mut i: usize = 0;
    while i < d.len()
        invariant
            i <= d@.len(),
            forall|q: int| 0 <= q < d@.len() ==> d@[q] == degree(e@, q, e@.len()),
            ints(k@) == linked(e@, i as nat),
            forall|q: int| 0 <= q < k@.len() ==> (k@[q] as int) < i,
        decreases d.len() - i,
    {
        if d[i] > 0 {
            let ghost k0 = ints(k@);
            k.push(i);
            assert(ints(k@) =~= k0.push(i as int));
        }
        i += 1;
    }
    k
}

fn ranks_before_exec(d: &Vec<usize>, notes: &[(i64, String, String)], j: usize, i: usize, e: Ghost<Seq<(usize, usize)>>) -> (r: bool)
    requires
        d@.len() == notes@.len(),
        j < d@.len(),
        i < d@.len(),
        forall|q: int| 0 <= q < d@.len() ==> d@[q] == degree(e@, q, e@.len()),
    ensures
        r == ranks_before(e@, ids_of(notes@), j as int, i as int),
{
    let dj = d[j];
    let di = d[i];
    let idj = notes[j].0;
    let idi = notes[i].0;
    dj > di || (dj == di && (idj < idi || (idj == idi && j < i)))
}

/// The best connected `MAX_NODES` of the linked notes `k`, ascending.
fn top_exec(d: &Vec<usize>, notes: &[(i64, String, String)], k: &Vec<usize>, e: Ghost<Seq<(usize, usize)>>) -> (r: Vec<usize>)
    requires
        d@.len() == notes@.len(),
        forall|q: int| 0 <= q < d@.len() ==> d@[q] == degree(e@, q, e@.len()),
        forall|q: int| 0 <= q < k@.len() ==> (k@[q] as int) < d@.len(),
    ensures
        ints(r@) == top(e@, ids_of(notes@), ints(k@), k@.len()),
        forall|q: int| 0 <= q < r@.len() ==> (r@[q] as int) < d@.len(),
{
    let ghost kv = ints(k@);
    let ghost ids = ids_of(notes@);
    let mut r: Vec<usize> = Vec::new();
    let mut m: usize = 0;
    while m < k.len()
        invariant
            m <= k@.len(),
            kv == ints(k@),
            ids == ids_of(notes@),
            d@.len() == notes@.len(),
            forall|q: int| 0 <= q < d@.len() ==> d@[q] == degree(e@, q, e@.len()),
            forall|q: int| 0 <= q < k@.len() ==> (k@[q] as int) < d@.len(),
            ints(r@) == top(e@, ids, kv, m as nat),
            forall|q: int| 0 <= q < r@.len() ==> (r@[q] as int) < d@.len(),
        decreases k.len() - m,
    {
        let x = k[m];
        let mut cnt: usize = 0;
        let mut q: usize = 0;
        while q < k.len()
            invariant
                q <= k@.len(),
                cnt <= q,
                x == k@[m as int],
                (x as int) < d@.len(),
                kv == ints(k@),
                ids == ids_of(notes@),
                d@.len() == notes@.len(),
                forall|z: int| 0 <= z < d@.len() ==> d@[z] == degree(e@, z, e@.len()),
                forall|z: int| 0 <= z < k@.len() ==> (k@[z] as int) < d@.len(),
                cnt == rank(e@, ids, kv, x as int, q as nat),
            decreases k.len() - q,
        {
            if ranks_before_exec(d, notes, k[q], x, e) {
                cnt += 1;
            }
            q += 1;
        }
        if cnt < MAX_NODES {
            let ghost r0 = ints(r@);
            r.push(x);
            assert(ints(r@) =~= r0.push(x as int));
        }
        m += 1;
    }
    r
}

/// `first_pos(k, x)`, and whether `x` is in `k`.
fn pos_exec(k: &Vec<usize>, x: usize) -> (r: (usize, bool))
    ensures
        r.0 as int == first_pos(ints(k@), x as int),
        r.1 == ints(k@).contains(x as int),
{
    let ghost kv = ints(k@);
    let mut q: usize = 0;
    assert(kv.skip(0) =~= kv);
    while q < k.len()
        invariant
            q <= k@.len(),
            kv == ints(k@),
            first_pos(kv, x as int) == q + first_pos(kv.skip(q as int), x as int),
            forall|z: int| 0 <= z < q ==> kv[z] != x as int,
        decreases k.len() - q,
    {
        assert(kv.skip(q as int)[0] == kv[q as int]);
        if k[q] == x {
            assert(kv[q as int] == x as int);
            return (q, true);
        }
        assert(kv.skip(q as int).drop_first() =~= kv.skip(q + 1));
        q += 1;
    }
    assert(kv.skip(q as int).len() == 0);
    (q, false)
}

pub open spec fn node_views(v: Seq<(i64, String)>) -> Seq<(i64, Seq<char>)> {
    v.map_values(|n: (i64, String)| (n.0, n.1@))
}

pub open spec fn edge_views(v: Seq<GraphEdge>) -> Seq<(int, int)> {
    v.map_values(|g: GraphEdge| (g.a as int, g.b as int))
}

/// The nodes and edges of the link graph of `notes` = (id, name, body):
/// nodes `(id, name)` of the notes that link or are linked (the best
/// connected `MAX_NODES` when there are more), in note order; undirected,
/// deduplicated edges without loops, in order of their note pair, renumbered
/// to node positions.
pub fn graph_topology(notes: &[(i64, String, String)]) -> (r: (Vec<(i64, String)>, Vec<GraphEdge>))
    ensures
        exists|e: Seq<(usize, usize)>|
            #![trigger strictly_sorted(e)]
            strictly_sorted(e) && same_set(e, all_edges(notes@, note_keys(notes@), notes@.len()))
                && node_views(r.0@) == graph_spec(notes@, e).0 && edge_views(r.1@) == graph_spec(notes@, e).1,
{
    let ks = keys_of(notes);
    let e = edge_list(notes, &ks);
    let ghost ev = e@;
    let d = degrees(&e, notes.len());
    let k0 = linked_exec(&d, Ghost(ev));
    let k = if k0.len() <= MAX_NODES {
        k0
    } else {
        top_exec(&d, notes, &k0, Ghost(ev))
    };
    let ghost kv = ints(k@);
    assert(kv == kept(ev, ids_of(notes@), notes@.len()));
    let mut nodes: Vec<(i64, String)> = Vec::new();
    let mut q: usize = 0;
    while q < k.len()
        invariant
            q <= k@.len(),
            kv == ints(k@),
            forall|z: int| 0 <= z < k@.len() ==> (k@[z] as int) < notes@.len(),
            node_views(nodes@) == kv.take(q as int).map_values(|i: int| (notes@[i].0, notes@[i].1@)),
        decreases k.len() - q,
    {
        let i = k[q];
        let ghost n0 = node_views(nodes@);
        let name = notes[i].1.clone();
        nodes.push((notes[i].0, name));
        assert(node_views(nodes@) =~= n0.push((notes@[i as int].0, notes@[i as int].1@)));
        assert(kv.take(q + 1).map_values(|i: int| (notes@[i].0, notes@[i].1@)) =~= kv.take(
            q as int,
        ).map_values(|i: int| (notes@[i].0, notes@[i].1@)).push((notes@[i as int].0, notes@[i as int].1@)));
        q += 1;
    }
    assert(kv.take(kv.len() as int) =~= kv);
    let mut edges: Vec<GraphEdge> = Vec::new();
    let mut m: usize = 0;
    while m < e.len()
        invariant
            m <= e@.len(),
            kv == ints(k@),
            edge_views(edges@) == shown_edges(e@, kv, m as nat),
        decreases e.len() - m,
    {
        let (a, b) = e[m];
        let (pa, ina) = pos_exec(&k, a);
        let (pb, inb) = pos_exec(&k, b);
        if ina && inb {
            let ghost g0 = edge_views(edges@);
            edges.push(GraphEdge { a: pa, b: pb });
            assert(edge_views(edges@) =~= g0.push((pa as int, pb as int)));
        }
        m += 1;
    }
    (nodes, edges)
}


/// Strictly increasing.
pub open spec fn ascending(k: Seq<int>) -> bool {
    forall|x: int, y: int| 0 <= x < y < k.len() ==> k[x] < k[y]
}

proof fn lemma_note_edges_in(ks: Seq<Seq<char>>, i: int, links: Seq<Seq<char>>, m: nat)
    requires
        0 <= i < ks.len() <= usize::MAX,
        m <= links.len(),
    ensures
        forall|x: int| 0 <= x < note_edges(ks, i, links, m).len() ==> (#[trigger] note_edges(ks, i, links, m)[x]).0
            < note_edges(ks, i, links, m)[x].1 && (note_edges(ks, i, links, m)[x].1 as int) < ks.len(),
    decreases m,
{
    if m > 0 {
        lemma_note_edges_in(ks, i, links, (m - 1) as nat);
        let r = note_edges(ks, i, links, (m - 1) as nat);
        let tk = str_lowercase(trim(links[m - 1]));
        lemma_last_index_bound(ks, tk, ks.len() as int);
        match link_edge(ks, i, tk) {
            Some(x) => {
                assert(note_edges(ks, i, links, m) == r.push(x));
                let j = last_index(ks, tk, ks.len() as int)->0;
                assert(x.0 < x.1 && (x.1 as int) < ks.len());
                assert forall|y: int| 0 <= y < r.push(x).len() implies (#[trigger] r.push(x)[y]).0 < r.push(
                    x,
                )[y].1 && (r.push(x)[y].1 as int) < ks.len() by {
                    if y < r.len() {
                        assert(r.push(x)[y] == r[y]);
                    }
                }
            },
            None => {
                assert(note_edges(ks, i, links, m) == r);
            },
        }
    }
}

proof fn lemma_all_edges_in(notes: Seq<(i64, String, String)>, ks: Seq<Seq<char>>, i: nat)
    requires
        ks.len() == notes.len() <= usize::MAX,
        i <= notes.len(),
    ensures
        forall|x: int| 0 <= x < all_edges(notes, ks, i).len() ==> (#[trigger] all_edges(notes, ks, i)[x]).0
            < all_edges(notes, ks, i)[x].1 && (all_edges(notes, ks, i)[x].1 as int) < notes.len(),
    decreases i,
{
    if i > 0 {
        lemma_all_edges_in(notes, ks, (i - 1) as nat);
        let links = wiki_links_spec(notes[i - 1].2@);
        lemma_note_edges_in(ks, i - 1, links, links.len());
        let a = all_edges(notes, ks, (i - 1) as nat);
        let b = note_edges(ks, i - 1, links, links.len());
        assert forall|x: int| 0 <= x < (a + b).len() implies (#[trigger] (a + b)[x]).0 < (a + b)[x].1 && ((
        a + b)[x].1 as int) < notes.len() by {
            if x < a.len() {
                assert((a + b)[x] == a[x]);
            } else {
                assert((a + b)[x] == b[x - a.len()]);
            }
        }
    }
}

proof fn lemma_linked(e: Seq<(usize, usize)>, n: nat)
    ensures
        ascending(linked(e, n)),
        forall|x: int| 0 <= x < linked(e, n).len() ==> 0 <= #[trigger] linked(e, n)[x] < n && degree(
            e,
            linked(e, n)[x],
            e.len(),
        ) > 0,
    decreases n,
{
    if n > 0 {
        lemma_linked(e, (n - 1) as nat);
    }
}

/// The notes `top` keeps are some of the first `m` of `k`, in the same order.
proof fn lemma_top(e: Seq<(usize, usize)>, ids: Seq<i64>, k: Seq<int>, m: nat)
    requires
        ascending(k),
        m <= k.len(),
    ensures
        ascending(top(e, ids, k, m)),
        forall|x: int| 0 <= x < top(e, ids, k, m).len() ==> exists|j: int| 0 <= j < m && #[trigger] top(
            e,
            ids,
            k,
            m,
        )[x] == k[j],
        forall|x: int| 0 <= x < top(e, ids, k, m).len() ==> rank(e, ids, k, #[trigger] top(e, ids, k, m)[x], k.len())
            < MAX_NODES,
    decreases m,
{
    if m > 0 {
        lemma_top(e, ids, k, (m - 1) as nat);
        let r = top(e, ids, k, (m - 1) as nat);
        let t0 = top(e, ids, k, m);
        assert forall|x: int| 0 <= x < t0.len() implies rank(e, ids, k, #[trigger] t0[x], k.len()) < MAX_NODES by {
            if x < r.len() {
                assert(t0[x] == r[x]);
            }
        }
        assert forall|x: int| 0 <= x < r.len() implies r[x] < k[m - 1] by {
            let j = choose|j: int| 0 <= j < m - 1 && r[x] == k[j];
        }
        let t = top(e, ids, k, m);
        assert forall|x: int| #![trigger t[x]] 0 <= x < t.len() implies exists|j: int| 0 <= j < m && #[trigger] t[x]
            == k[j] by {
            if x < r.len() {
                assert(t[x] == r[x]);
                let j = choose|j: int| 0 <= j < m - 1 && r[x] == k[j];
                assert(t[x] == k[j]);
            } else {
                assert(t[x] == k[m - 1]);
            }
        }
    }
}

/// The notes shown: ascending, each a note index with at least one edge.
proof fn lemma_kept(e: Seq<(usize, usize)>, ids: Seq<i64>, n: nat)
    ensures
        ascending(kept(e, ids, n)),
        forall|x: int| 0 <= x < kept(e, ids, n).len() ==> 0 <= #[trigger] kept(e, ids, n)[x] < n && degree(
            e,
            kept(e, ids, n)[x],
            e.len(),
        ) > 0,
{
    let k = linked(e, n);
    lemma_linked(e, n);
    if k.len() > MAX_NODES {
        lemma_top(e, ids, k, k.len());
        let t = top(e, ids, k, k.len());
        assert forall|x: int| 0 <= x < t.len() implies 0 <= #[trigger] t[x] < n && degree(e, t[x], e.len())
            > 0 by {
            let j = choose|j: int| 0 <= j < k.len() && t[x] == k[j];
        }
    }
}

/// In an ascending sequence, the first position of its `p`-th element is `p`.
proof fn lemma_first_pos(k: Seq<int>, p: int)
    requires
        ascending(k),
        0 <= p < k.len(),
    ensures
        first_pos(k, k[p]) == p,
    decreases p,
{
    if p > 0 {
        assert(k[0] < k[p]);
        let d = k.drop_first();
        assert(d[p - 1] == k[p]);
        lemma_first_pos(d, p - 1);
    }
}

/// Where a member of an ascending sequence stands.
proof fn lemma_member_pos(k: Seq<int>, a: int)
    requires
        ascending(k),
        k.contains(a),
    ensures
        0 <= first_pos(k, a) < k.len(),
        k[first_pos(k, a)] == a,
{
    let p = choose|p: int| 0 <= p < k.len() && k[p] == a;
    lemma_first_pos(k, p);
}

/// Shown edge `p` is edge `e[j]` renumbered by position in `k`.
pub open spec fn shows_edge(e: Seq<(usize, usize)>, k: Seq<int>, j: int, p: (int, int)) -> bool {
    &&& 0 <= j < e.len()
    &&& k.contains(e[j].0 as int)
    &&& k.contains(e[j].1 as int)
    &&& p == (first_pos(k, e[j].0 as int), first_pos(k, e[j].1 as int))
}

/// Shown edge `p` is one of `e[..m]` renumbered.
pub open spec fn from_some_edge(e: Seq<(usize, usize)>, k: Seq<int>, m: int, p: (int, int)) -> bool {
    exists|j: int| j < m && #[trigger] shows_edge(e, k, j, p)
}

pub open spec fn ipair_lt(x: (int, int), y: (int, int)) -> bool {
    x.0 < y.0 || (x.0 == y.0 && x.1 < y.1)
}

/// The shown edges, renumbered: each joins two shown nodes, the lower one
/// first, and each comes from an edge of `e[..m]`; they stay in `e`'s order.
proof fn lemma_shown_edges(e: Seq<(usize, usize)>, k: Seq<int>, m: nat)
    requires
        ascending(k),
        strictly_sorted(e),
        forall|x: int| 0 <= x < e.len() ==> (#[trigger] e[x]).0 < e[x].1,
        m <= e.len(),
    ensures
        forall|x: int| 0 <= x < shown_edges(e, k, m).len() ==> 0 <= (#[trigger] shown_edges(e, k, m)[x]).0
            < shown_edges(e, k, m)[x].1 < k.len(),
        forall|x: int| 0 <= x < shown_edges(e, k, m).len() ==> from_some_edge(
            e,
            k,
            m as int,
            #[trigger] shown_edges(e, k, m)[x],
        ),
        forall|x: int, y: int| 0 <= x < y < shown_edges(e, k, m).len() ==> ipair_lt(
            #[trigger] shown_edges(e, k, m)[x],
            #[trigger] shown_edges(e, k, m)[y],
        ),
    decreases m,
{
    if m > 0 {
        lemma_shown_edges(e, k, (m - 1) as nat);
        let r = shown_edges(e, k, (m - 1) as nat);
        let (a, b) = e[m - 1];
        if k.contains(a as int) && k.contains(b as int) {
            lemma_member_pos(k, a as int);
            lemma_member_pos(k, b as int);
            let pa = first_pos(k, a as int);
            let pb = first_pos(k, b as int);
            assert(pa < pb) by {
                if pa >= pb {
                    if pa > pb {
                        assert(k[pb] < k[pa]);
                    }
                }
            }
            let t = r.push((pa, pb));
            assert(shown_edges(e, k, m) == t);
            assert forall|x: int| 0 <= x < r.len() implies ipair_lt(r[x], (pa, pb)) by {
                assert(from_some_edge(e, k, m - 1, r[x]));
                let j = choose|j: int| j < m - 1 && #[trigger] shows_edge(e, k, j, r[x]);
                assert(pair_lt(e[j], e[m - 1]));
                lemma_member_pos(k, e[j].0 as int);
                lemma_member_pos(k, e[j].1 as int);
                let qa = first_pos(k, e[j].0 as int);
                let qb = first_pos(k, e[j].1 as int);
                if e[j].0 < a {
                    if qa >= pa {
                        if qa > pa {
                            assert(k[pa] < k[qa]);
                        }
                    }
                } else {
                    assert(e[j].0 == a && e[j].1 < b);
                    if qb >= pb {
                        if qb > pb {
                            assert(k[pb] < k[qb]);
                        }
                    }
                }
            }
            assert forall|x: int, y: int| 0 <= x < y < t.len() implies ipair_lt(
                #[trigger] t[x],
                #[trigger] t[y],
            ) by {
                if y < r.len() {
                    assert(t[x] == r[x] && t[y] == r[y]);
                } else {
                    assert(t[x] == r[x]);
                }
            }
            let s2 = shown_edges(e, k, m);
            assert forall|x: int| 0 <= x < s2.len() implies from_some_edge(e, k, m as int, #[trigger] s2[x]) by {
                assert(s2[x] == t[x]);
                if x < r.len() {
                    assert(from_some_edge(e, k, m - 1, r[x]));
                    let j = choose|j: int| j < m - 1 && #[trigger] shows_edge(e, k, j, r[x]);
                    assert(shows_edge(e, k, j, s2[x]));
                } else {
                    assert(shows_edge(e, k, m - 1, s2[x]));
                }
            }
        } else {
            assert(shown_edges(e, k, m) == r);
            let s2 = shown_edges(e, k, m);
            assert forall|x: int| 0 <= x < s2.len() implies from_some_edge(e, k, m as int, #[trigger] s2[x]) by {
                assert(s2[x] == r[x]);
                assert(from_some_edge(e, k, m - 1, r[x]));
                let j = choose|j: int| j < m - 1 && #[trigger] shows_edge(e, k, j, r[x]);
                assert(shows_edge(e, k, j, s2[x]));
            }
        }
    }
}


/// A note ranking before another has fewer notes of `k` ranking before it.
proof fn lemma_rank_order(e: Seq<(usize, usize)>, ids: Seq<i64>, k: Seq<int>, j: int, i: int, m: nat)
    requires
        ascending(k),
        ranks_before(e, ids, j, i),
        m <= k.len(),
    ensures
        rank(e, ids, k, i, m) >= rank(e, ids, k, j, m),
        forall|p: int| 0 <= p < m && k[p] == j ==> rank(e, ids, k, i, m) > rank(e, ids, k, j, m),
    decreases m,
{
    if m > 0 {
        lemma_rank_order(e, ids, k, j, i, (m - 1) as nat);
        assert forall|p: int| 0 <= p < m && k[p] == j implies rank(e, ids, k, i, m) > rank(e, ids, k, j, m) by {
            if p < m - 1 {
                assert(k[p] < k[m - 1]);
            }
        }
    }
}

/// At most `MAX_NODES` notes are shown.
proof fn lemma_kept_cap(e: Seq<(usize, usize)>, ids: Seq<i64>, n: nat)
    ensures
        kept(e, ids, n).len() <= MAX_NODES,
{
    let k = linked(e, n);
    lemma_linked(e, n);
    if k.len() > MAX_NODES {
        let t = top(e, ids, k, k.len());
        lemma_top(e, ids, k, k.len());
        let rs = Seq::new(t.len(), |x: int| rank(e, ids, k, t[x], k.len()) as int);
        assert(rs.no_duplicates()) by {
            assert forall|x: int, y: int| 0 <= x < rs.len() && 0 <= y < rs.len() && x != y implies rs[x]
                != rs[y] by {
                let a = t[x];
                let b = t[y];
                let pa = choose|q: int| 0 <= q < k.len() && t[x] == k[q];
                let pb = choose|q: int| 0 <= q < k.len() && t[y] == k[q];
                if x < y {
                    assert(a < b);
                } else {
                    assert(b < a);
                }
                if ranks_before(e, ids, a, b) {
                    lemma_rank_order(e, ids, k, a, b, k.len());
                } else {
                    assert(ranks_before(e, ids, b, a));
                    lemma_rank_order(e, ids, k, b, a, k.len());
                }
            }
        }
        rs.unique_seq_to_set();
        assert(rs.to_set().subset_of(vstd::set_lib::set_int_range(0, MAX_NODES as int))) by {
            assert forall|v: int| rs.to_set().contains(v) implies 0 <= v < MAX_NODES by {
                let x = choose|x: int| 0 <= x < rs.len() && rs[x] == v;
                assert(rank(e, ids, k, t[x], k.len()) < MAX_NODES);
            }
        }
        vstd::set_lib::lemma_int_range(0, MAX_NODES as int);
        vstd::set_lib::lemma_len_subset(rs.to_set(), vstd::set_lib::set_int_range(0, MAX_NODES as int));
    }
}

/// The shape of the link graph: every edge joins two different nodes, the
/// lower-numbered first; no edge appears twice (the edges come in strictly
/// increasing order); there are at most `MAX_NODES` nodes; and every node's
/// note links or is linked.
pub proof fn law_graph_shape(notes: Seq<(i64, String, String)>, e: Seq<(usize, usize)>)
    requires
        notes.len() <= usize::MAX,
        strictly_sorted(e),
        same_set(e, all_edges(notes, note_keys(notes), notes.len())),
    ensures
        ({
            let (nodes, edges) = graph_spec(notes, e);
            let k = kept(e, ids_of(notes), notes.len());
            &&& forall|x: int| 0 <= x < edges.len() ==> 0 <= (#[trigger] edges[x]).0 < edges[x].1 < nodes.len()
            &&& forall|x: int, y: int| 0 <= x < y < edges.len() ==> #[trigger] edges[x] != #[trigger] edges[y]
            &&& nodes.len() == k.len()
            &&& nodes.len() <= MAX_NODES
            &&& forall|x: int| 0 <= x < k.len() ==> degree(e, #[trigger] k[x], e.len()) > 0
        }),
{
    let ks = note_keys(notes);
    lemma_all_edges_in(notes, ks, notes.len());
    let all = all_edges(notes, ks, notes.len());
    assert forall|x: int| 0 <= x < e.len() implies (#[trigger] e[x]).0 < e[x].1 by {
        assert(e.contains(e[x]));
        assert(all.contains(e[x]));
        let j = choose|j: int| 0 <= j < all.len() && all[j] == e[x];
        assert(all[j].0 < all[j].1);
    }
    let ids = ids_of(notes);
    let k = kept(e, ids, notes.len());
    lemma_kept(e, ids, notes.len());
    lemma_kept_cap(e, ids, notes.len());
    lemma_shown_edges(e, k, e.len());
    let se = shown_edges(e, k, e.len());
    assert forall|x: int, y: int| 0 <= x < y < se.len() implies #[trigger] se[x] != #[trigger] se[y] by {
        assert(ipair_lt(se[x], se[y]));
    }
}

} // verus!
