//! Bookmarks from other browsers: walking Chrome's `Bookmarks` JSON tree and
//! Safari's `Bookmarks.plist` tree for `(title, url)` pairs (http(s) only), and
//! choosing where an import reads from. Finding and reading the browsers'
//! files is the caller's part.
use vstd::prelude::*;
use crate::text::{chars_eq, chars_of, starts_with, starts_with_exec};

verus! {

/// A JSON value, as far as bookmark import reads it.
#[derive(Debug)]
pub enum Json {
    Null,
    Bool(bool),
    Number,
    Str(String),
    Array(Vec<Json>),
    /// Members in the parser's key order (sorted by key).
    Object(Vec<(String, Json)>),
}

#[verifier::external_type_specification]
#[verifier::external_body]
pub struct ExJsonValue(serde_json::Value);

/// What `serde_json::from_str::<serde_json::Value>` makes of a text: `None` for
/// malformed JSON, else the parsed value.
pub uninterp spec fn json_parse(s: Seq<char>) -> Option<Json>;

/// Converts a parsed `serde_json::Value` into a `Json`, variant for variant.
#[verifier::external_body]
fn json_of(v: &serde_json::Value) -> Json {
    match v {
        serde_json::Value::Null => Json::Null,
        serde_json::Value::Bool(b) => Json::Bool(*b),
        serde_json::Value::Number(_) => Json::Number,
        serde_json::Value::String(s) => Json::Str(s.clone()),
        serde_json::Value::Array(a) => Json::Array(a.iter().map(json_of).collect()),
        serde_json::Value::Object(m) => Json::Object(m.iter().map(|(k, x)| (k.clone(), json_of(x))).collect()),
    }
}

/// Calls `serde_json::from_str::<serde_json::Value>(s)`: the named parse of `s`
/// (a function of the text alone; objects keep the parser's key order).
#[verifier::external_body]
fn parse_json(s: &str) -> (r: Option<Json>)
    ensures
        r == json_parse(s@),
{
    match serde_json::from_str::<serde_json::Value>(s) {
        Ok(v) => Some(json_of(&v)),
        Err(_) => None,
    }
}

/// The value of the first member named `key` of an object.
pub open spec fn json_get(members: Seq<(String, Json)>, key: Seq<char>) -> Option<Json>
    decreases members.len(),
{
    if members.len() == 0 {
        None
    } else if members[0].0@ == key {
        Some(members[0].1)
    } else {
        json_get(members.drop_first(), key)
    }
}

/// The value of member `key` when `node` is an object.
pub open spec fn field(node: Json, key: Seq<char>) -> Option<Json> {
    match node {
        Json::Object(m) => json_get(m@, key),
        _ => None,
    }
}

pub open spec fn as_str(v: Option<Json>) -> Option<Seq<char>> {
    match v {
        Some(Json::Str(s)) => Some(s@),
        _ => None,
    }
}

/// The http(s) bookmarks of a Chrome node: a `"type": "url"` node is one
/// bookmark (its `name`, or empty); any other node contributes those of its
/// `children`, in order.
pub open spec fn chrome_walk(node: Json) -> Seq<(Seq<char>, Seq<char>)>
    decreases node, 0int,
{
    if as_str(field(node, "type"@)) == Some("url"@) {
        match as_str(field(node, "url"@)) {
            Some(u) => if starts_with(u, "http"@) {
                let name = match as_str(field(node, "name"@)) {
                    Some(n) => n,
                    None => seq![],
                };
                seq![(name, u)]
            } else {
                seq![]
            },
            None => seq![],
        }
    } else {
        match node {
            Json::Object(m) => chrome_members(m@, 0),
            _ => seq![],
        }
    }
}

/// Bookmarks under the first member named `children` among `ms[k..]`.
pub open spec fn chrome_members(ms: Seq<(String, Json)>, k: int) -> Seq<(Seq<char>, Seq<char>)>
    decreases ms, ms.len() - k,
{
    if k < 0 || k >= ms.len() {
        seq![]
    } else if ms[k].0@ == "children"@ {
        match ms[k].1 {
            Json::Array(cs) => chrome_list(cs@, 0),
            _ => seq![],
        }
    } else {
        chrome_members(ms, k + 1)
    }
}

/// Bookmarks of the nodes `cs[j..]`, in order.
pub open spec fn chrome_list(cs: Seq<Json>, j: int) -> Seq<(Seq<char>, Seq<char>)>
    decreases cs, cs.len() - j,
{
    if j < 0 || j >= cs.len() {
        seq![]
    } else {
        chrome_walk(cs[j]) + chrome_list(cs, j + 1)
    }
}

pub open spec fn pair_views(v: Seq<(String, String)>) -> Seq<(Seq<char>, Seq<char>)> {
    v.map_values(|p: (String, String)| (p.0@, p.1@))
}

fn str_eq(a: &String, b: &str) -> (r: bool)
    ensures
        r == (a@ == b@),
{
    chars_eq(&chars_of(a.as_str()), &chars_of(b))
}

/// The first member named `key`.
fn get_member<'a>(ms: &'a Vec<(String, Json)>, key: &str) -> (r: Option<&'a Json>)
    ensures
        match r {
            Some(v) => json_get(ms@, key@) == Some(*v),
            None => json_get(ms@, key@) is None,
        },
{
    let mut i: usize = 0;
    assert(ms@.skip(0) =~= ms@);
    while i < ms.len()
        invariant
            i <= ms@.len(),
            json_get(ms@, key@) == json_get(ms@.skip(i as int), key@),
        decreases ms.len() - i,
    {
        assert(ms@.skip(i as int)[0] == ms@[i as int]);
        assert(ms@.skip(i as int).drop_first() =~= ms@.skip(i + 1));
        if str_eq(&ms[i].0, key) {
            return Some(&ms[i].1);
        }
        i += 1;
    }
    assert(ms@.skip(i as int) =~= Seq::<(String, Json)>::empty());
    None
}

fn field_str<'a>(node: &'a Json, key: &str) -> (r: Option<&'a String>)
    ensures
        match r {
            Some(s) => as_str(field(*node, key@)) == Some(s@),
            None => as_str(field(*node, key@)) is None,
        },
{
    match node {
        Json::Object(m) => match get_member(m, key) {
            Some(Json::Str(s)) => Some(s),
            _ => None,
        },
        _ => None,
    }
}

fn push_pair(out: &mut Vec<(String, String)>, a: &String, b: &String)
    ensures
        pair_views(final(out)@) == pair_views(old(out)@).push((a@, b@)),
{
    let ghost o = out@;
    out.push((a.clone(), b.clone()));
    assert(pair_views(out@) =~= pair_views(o).push((a@, b@)));
}

fn walk(node: &Json, out: &mut Vec<(String, String)>)
    ensures
        pair_views(final(out)@) == pair_views(old(out)@) + chrome_walk(*node),
    decreases *node, 0int,
{
    let is_url = match field_str(node, "type") {
        Some(t) => str_eq(t, "url"),
        None => false,
    };
    if is_url {
        match field_str(node, "url") {
            Some(u) => {
                if starts_with_exec(&chars_of(u.as_str()), &chars_of("http")) {
                    let empty = String::new();
                    let name = match field_str(node, "name") {
                        Some(n) => n,
                        None => &empty,
                    };
                    push_pair(out, name, u);
                    assert(chrome_walk(*node) =~= seq![(name@, u@)]);
                } else {
                    assert(pair_views(out@) =~= pair_views(out@) + Seq::<(Seq<char>, Seq<char>)>::empty());
                }
            },
            None => {
                assert(pair_views(out@) =~= pair_views(out@) + Seq::<(Seq<char>, Seq<char>)>::empty());
            },
        }
        return;
    }
    match node {
        Json::Object(m) => walk_members(m, 0, out),
        _ => {
            assert(pair_views(out@) =~= pair_views(out@) + Seq::<(Seq<char>, Seq<char>)>::empty());
        },
    }
}

fn walk_members(ms: &Vec<(String, Json)>, k: usize, out: &mut Vec<(String, String)>)
    requires
        k <= ms@.len(),
    ensures
        pair_views(final(out)@) == pair_views(old(out)@) + chrome_members(ms@, k as int),
    decreases ms@, ms@.len() - k,
{
    if k >= ms.len() {
        assert(pair_views(out@) =~= pair_views(out@) + Seq::<(Seq<char>, Seq<char>)>::empty());
        return;
    }
    if str_eq(&ms[k].0, "children") {
        match &ms[k].1 {
            Json::Array(cs) => walk_list(cs, 0, out),
            _ => {
                assert(pair_views(out@) =~= pair_views(out@) + Seq::<(Seq<char>, Seq<char>)>::empty());
            },
        }
    } else {
        walk_members(ms, k + 1, out);
    }
}

fn walk_list(cs: &Vec<Json>, j: usize, out: &mut Vec<(String, String)>)
    requires
        j <= cs@.len(),
    ensures
        pair_views(final(out)@) == pair_views(old(out)@) + chrome_list(cs@, j as int),
    decreases cs@, cs@.len() - j,
{
    if j >= cs.len() {
        assert(pair_views(out@) =~= pair_views(out@) + Seq::<(Seq<char>, Seq<char>)>::empty());
        return;
    }
    let ghost o = pair_views(out@);
    walk(&cs[j], out);
    let ghost o2 = pair_views(out@);
    walk_list(cs, j + 1, out);
    assert(pair_views(out@) =~= o + (chrome_walk(cs@[j as int]) + chrome_list(cs@, j + 1)));
}

/// The bookmarks of a parsed Chrome `Bookmarks` file: those under each member
/// of `roots`, in the parser's key order.
pub open spec fn chrome_tree_spec(root: Json) -> Seq<(Seq<char>, Seq<char>)> {
    match field(root, "roots"@) {
        Some(Json::Object(rs)) => roots_walk(rs@, 0),
        _ => seq![],
    }
}

pub open spec fn roots_walk(rs: Seq<(String, Json)>, i: int) -> Seq<(Seq<char>, Seq<char>)>
    decreases rs.len() - i,
{
    if i < 0 || i >= rs.len() {
        seq![]
    } else {
        chrome_walk(rs[i].1) + roots_walk(rs, i + 1)
    }
}

/// (title, url) pairs (http(s) only) of a parsed Chrome `Bookmarks` file.
pub fn chrome_bookmarks(root: &Json) -> (r: Vec<(String, String)>)
    ensures
        pair_views(r@) == chrome_tree_spec(*root),
{
    let mut out: Vec<(String, String)> = Vec::new();
    let rs = match root {
        Json::Object(m) => match get_member(m, "roots") {
            Some(Json::Object(rs)) => rs,
            _ => {
                assert(pair_views(out@) =~= Seq::<(Seq<char>, Seq<char>)>::empty());
                return out;
            },
        },
        _ => {
            assert(pair_views(out@) =~= Seq::<(Seq<char>, Seq<char>)>::empty());
            return out;
        },
    };
    let mut i: usize = 0;
    assert(pair_views(out@) =~= Seq::<(Seq<char>, Seq<char>)>::empty());
    while i < rs.len()
        invariant
            i <= rs@.len(),
            pair_views(out@) + roots_walk(rs@, i as int) == roots_walk(rs@, 0),
        decreases rs.len() - i,
    {
        let ghost o = pair_views(out@);
        walk(&rs[i].1, &mut out);
        assert(o + roots_walk(rs@, i as int) =~= pair_views(out@) + roots_walk(rs@, i + 1));
        i += 1;
    }
    assert(pair_views(out@) + roots_walk(rs@, i as int) =~= pair_views(out@));
    out
}

/// Parse a Chrome/Chromium `Bookmarks` JSON string into (title, url) pairs
/// (http(s) only). Never panics; returns empty on malformed input.
pub fn parse_chrome_bookmarks(json: &str) -> (r: Vec<(String, String)>)
    ensures
        pair_views(r@) == match json_parse(json@) {
            Some(root) => chrome_tree_spec(root),
            None => seq![],
        },
{
    match parse_json(json) {
        Some(root) => chrome_bookmarks(&root),
        None => {
            let out: Vec<(String, String)> = Vec::new();
            assert(pair_views(out@) =~= Seq::<(Seq<char>, Seq<char>)>::empty());
            out
        },
    }
}

// ---------------------------------------------------------------------------
// Safari
// ---------------------------------------------------------------------------

/// A property-list value, as far as bookmark import reads it.
#[derive(Debug)]
pub enum Plist {
    /// Entries in the file's order.
    Dict(Vec<(String, Plist)>),
    Array(Vec<Plist>),
    Str(String),
    Other,
}

pub open spec fn pget(entries: Seq<(String, Plist)>, key: Seq<char>) -> Option<Plist>
    decreases entries.len(),
{
    if entries.len() == 0 {
        None
    } else if entries[0].0@ == key {
        Some(entries[0].1)
    } else {
        pget(entries.drop_first(), key)
    }
}

pub open spec fn as_pstr(v: Option<Plist>) -> Option<Seq<char>> {
    match v {
        Some(Plist::Str(s)) => Some(s@),
        _ => None,
    }
}

/// The bookmark a Safari dictionary describes itself: a leaf with an http(s)
/// `URLString`, titled by its `URIDictionary.title` or else by the URL.
pub open spec fn safari_leaf(d: Seq<(String, Plist)>) -> Seq<(Seq<char>, Seq<char>)> {
    if as_pstr(pget(d, "WebBookmarkType"@)) == Some("WebBookmarkTypeLeaf"@) {
        match as_pstr(pget(d, "URLString"@)) {
            Some(url) => if starts_with(url, "http"@) {
                let title = match pget(d, "URIDictionary"@) {
                    Some(Plist::Dict(ud)) => match as_pstr(pget(ud@, "title"@)) {
                        Some(t) => t,
                        None => url,
                    },
                    _ => url,
                };
                seq![(title, url)]
            } else {
                seq![]
            },
            None => seq![],
        }
    } else {
        seq![]
    }
}

/// The http(s) bookmarks of a Safari node: its own (if it is a leaf), then
/// those of its `Children`, in order.
pub open spec fn safari_walk(node: Plist) -> Seq<(Seq<char>, Seq<char>)>
    decreases node, 0int,
{
    match node {
        Plist::Dict(d) => safari_leaf(d@) + safari_members(d@, 0),
        _ => seq![],
    }
}

pub open spec fn safari_members(ms: Seq<(String, Plist)>, k: int) -> Seq<(Seq<char>, Seq<char>)>
    decreases ms, ms.len() - k,
{
    if k < 0 || k >= ms.len() {
        seq![]
    } else if ms[k].0@ == "Children"@ {
        match ms[k].1 {
            Plist::Array(cs) => safari_list(cs@, 0),
            _ => seq![],
        }
    } else {
        safari_members(ms, k + 1)
    }
}

pub open spec fn safari_list(cs: Seq<Plist>, j: int) -> Seq<(Seq<char>, Seq<char>)>
    decreases cs, cs.len() - j,
{
    if j < 0 || j >= cs.len() {
        seq![]
    } else {
        safari_walk(cs[j]) + safari_list(cs, j + 1)
    }
}

fn get_entry<'a>(ms: &'a Vec<(String, Plist)>, key: &str) -> (r: Option<&'a Plist>)
    ensures
        match r {
            Some(v) => pget(ms@, key@) == Some(*v),
            None => pget(ms@, key@) is None,
        },
{
    let mut i: usize = 0;
    assert(ms@.skip(0) =~= ms@);
    while i < ms.len()
        invariant
            i <= ms@.len(),
            pget(ms@, key@) == pget(ms@.skip(i as int), key@),
        decreases ms.len() - i,
    {
        assert(ms@.skip(i as int)[0] == ms@[i as int]);
        assert(ms@.skip(i as int).drop_first() =~= ms@.skip(i + 1));
        if str_eq(&ms[i].0, key) {
            return Some(&ms[i].1);
        }
        i += 1;
    }
    assert(ms@.skip(i as int) =~= Seq::<(String, Plist)>::empty());
    None
}

fn entry_str<'a>(ms: &'a Vec<(String, Plist)>, key: &str) -> (r: Option<&'a String>)
    ensures
        match r {
            Some(s) => as_pstr(pget(ms@, key@)) == Some(s@),
            None => as_pstr(pget(ms@, key@)) is None,
        },
{
    match get_entry(ms, key) {
        Some(Plist::Str(s)) => Some(s),
        _ => None,
    }
}

fn leaf_of(d: &Vec<(String, Plist)>, out: &mut Vec<(String, String)>)
    ensures
        pair_views(final(out)@) == pair_views(old(out)@) + safari_leaf(d@),
{
    let is_leaf = match entry_str(d, "WebBookmarkType") {
        Some(t) => str_eq(t, "WebBookmarkTypeLeaf"),
        None => false,
    };
    if is_leaf {
        match entry_str(d, "URLString") {
            Some(url) => {
                if starts_with_exec(&chars_of(url.as_str()), &chars_of("http")) {
                    let title = match get_entry(d, "URIDictionary") {
                        Some(Plist::Dict(ud)) => match entry_str(ud, "title") {
                            Some(t) => t,
                            None => url,
                        },
                        _ => url,
                    };
                    push_pair(out, title, url);
                    return;
                }
            },
            None => {},
        }
    }
    assert(pair_views(out@) =~= pair_views(out@) + Seq::<(Seq<char>, Seq<char>)>::empty());
}

fn walk_safari(node: &Plist, out: &mut Vec<(String, String)>)
    ensures
        pair_views(final(out)@) == pair_views(old(out)@) + safari_walk(*node),
    decreases *node, 0int,
{
    match node {
        Plist::Dict(d) => {
            let ghost o = pair_views(out@);
            leaf_of(d, out);
            safari_walk_members(d, 0, out);
            assert(pair_views(out@) =~= o + (safari_leaf(d@) + safari_members(d@, 0)));
        },
        _ => {
            assert(pair_views(out@) =~= pair_views(out@) + Seq::<(Seq<char>, Seq<char>)>::empty());
        },
    }
}

fn safari_walk_members(ms: &Vec<(String, Plist)>, k: usize, out: &mut Vec<(String, String)>)
    requires
        k <= ms@.len(),
    ensures
        pair_views(final(out)@) == pair_views(old(out)@) + safari_members(ms@, k as int),
    decreases ms@, ms@.len() - k,
{
    if k >= ms.len() {
        assert(pair_views(out@) =~= pair_views(out@) + Seq::<(Seq<char>, Seq<char>)>::empty());
        return;
    }
    if str_eq(&ms[k].0, "Children") {
        match &ms[k].1 {
            Plist::Array(cs) => safari_walk_list(cs, 0, out),
            _ => {
                assert(pair_views(out@) =~= pair_views(out@) + Seq::<(Seq<char>, Seq<char>)>::empty());
            },
        }
    } else {
        safari_walk_members(ms, k + 1, out);
    }
}

fn safari_walk_list(cs: &Vec<Plist>, j: usize, out: &mut Vec<(String, String)>)
    requires
        j <= cs@.len(),
    ensures
        pair_views(final(out)@) == pair_views(old(out)@) + safari_list(cs@, j as int),
    decreases cs@, cs@.len() - j,
{
    if j >= cs.len() {
        assert(pair_views(out@) =~= pair_views(out@) + Seq::<(Seq<char>, Seq<char>)>::empty());
        return;
    }
    let ghost o = pair_views(out@);
    walk_safari(&cs[j], out);
    safari_walk_list(cs, j + 1, out);
    assert(pair_views(out@) =~= o + (safari_walk(cs@[j as int]) + safari_list(cs@, j + 1)));
}

/// (title, url) pairs (http(s) only) of a parsed Safari `Bookmarks.plist`.
pub fn safari_bookmarks(root: &Plist) -> (r: Vec<(String, String)>)
    ensures
        pair_views(r@) == safari_walk(*root),
{
    let mut out: Vec<(String, String)> = Vec::new();
    assert(pair_views(out@) =~= Seq::<(Seq<char>, Seq<char>)>::empty());
    walk_safari(root, &mut out);
    assert(pair_views(out@) =~= Seq::<(Seq<char>, Seq<char>)>::empty() + safari_walk(*root));
    out
}

#[verifier::external_type_specification]
#[verifier::external_body]
pub struct ExPlistValue(plist::Value);

/// What `plist::Value::from_reader` makes of a file's bytes (binary or XML):
/// `None` when they are not a property list, else the value read.
pub uninterp spec fn plist_parse(bytes: Seq<u8>) -> Option<Plist>;

/// Converts a read `plist::Value` into a `Plist`, variant for variant;
/// dictionaries keep their entries in file order, numbers, dates and the like
/// become `Other`.
#[verifier::external_body]
fn plist_of(v: &plist::Value) -> Plist {
    match v {
        plist::Value::Dictionary(d) => Plist::Dict(d.iter().map(|(k, x)| (k.clone(), plist_of(x))).collect()),
        plist::Value::Array(a) => Plist::Array(a.iter().map(plist_of).collect()),
        plist::Value::String(s) => Plist::Str(s.clone()),
        _ => Plist::Other,
    }
}

/// Calls `plist::Value::from_reader` on the bytes: the named reading of them.
#[verifier::external_body]
fn parse_plist(bytes: &[u8]) -> (r: Option<Plist>)
    ensures
        r == plist_parse(bytes@),
{
    match plist::Value::from_reader(std::io::Cursor::new(bytes)) {
        Ok(v) => Some(plist_of(&v)),
        Err(_) => None,
    }
}

/// (title, url) pairs (http(s) only) of the bytes of a Safari
/// `Bookmarks.plist`; `None` when they are not a property list.
pub fn parse_safari_plist(bytes: &[u8]) -> (r: Option<Vec<(String, String)>>)
    ensures
        match plist_parse(bytes@) {
            Some(p) => r matches Some(v) && pair_views(v@) == safari_walk(p),
            None => r is None,
        },
{
    match parse_plist(bytes) {
        Some(p) => Some(safari_bookmarks(&p)),
        None => None,
    }
}

// ---------------------------------------------------------------------------
// Where an import reads from
// ---------------------------------------------------------------------------

/// The source a `--import-bookmarks` argument names.
#[derive(Debug, Clone, PartialEq, Eq)]
pub enum ImportSource {
    Chrome,
    Firefox,
    Safari,
    /// A file path, read by its extension.
    File(String),
}

pub open spec fn import_source_spec(which: Seq<char>) -> (int, Seq<char>) {
    if which == "chrome"@ || which == "chromium"@ {
        (0, seq![])
    } else if which == "firefox"@ {
        (1, seq![])
    } else if which == "safari"@ {
        (2, seq![])
    } else {
        (3, which)
    }
}

pub open spec fn source_view(s: ImportSource) -> (int, Seq<char>) {
    match s {
        ImportSource::Chrome => (0, seq![]),
        ImportSource::Firefox => (1, seq![]),
        ImportSource::Safari => (2, seq![]),
        ImportSource::File(p) => (3, p@),
    }
}

/// Resolve a `--import-bookmarks` argument: a browser name
/// ("chrome"/"chromium"/"firefox"/"safari") or else a file path.
pub fn import_source(which: &str) -> (r: ImportSource)
    ensures
        source_view(r) == import_source_spec(which@),
{
    let w = chars_of(which);
    if chars_eq(&w, &chars_of("chrome")) || chars_eq(&w, &chars_of("chromium")) {
        ImportSource::Chrome
    } else if chars_eq(&w, &chars_of("firefox")) {
        ImportSource::Firefox
    } else if chars_eq(&w, &chars_of("safari")) {
        ImportSource::Safari
    } else {
        ImportSource::File(String::from_str(which))
    }
}

} // verus!
