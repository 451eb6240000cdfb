//! The colour-theme catalogue. The UI selects a palette by index; the config
//! file stores the stable string `id`; `dark` drives the window chrome.
//!
//! The order of the catalogue is the contract: index N here is palette N in
//! the UI's palette list.
use vstd::prelude::*;
use crate::text::chars_of;

verus! {

/// One theme's stable identity: `id` is what the config file stores, `name`
/// the human label, `dark` whether the window chrome is dark.
pub struct ThemeDef {
    pub id: &'static str,
    pub name: &'static str,
    pub dark: bool,
}

/// Number of themes in the catalogue.
pub const THEME_COUNT: usize = 9;

/// The catalogue as `(id, name, dark)`, in palette-index order.
pub open spec fn theme_table() -> Seq<(Seq<char>, Seq<char>, bool)> {
    seq![
        ("dark"@, "Dark"@, true),
        ("light"@, "Light"@, false),
        ("catppuccin-mocha"@, "Catppuccin Mocha"@, true),
        ("catppuccin-latte"@, "Catppuccin Latte"@, false),
        ("tokyo-night"@, "Tokyo Night"@, true),
        ("atom-one-dark"@, "Atom One Dark"@, true),
        ("dracula"@, "Dracula"@, true),
        ("nord"@, "Nord"@, true),
        ("gruvbox-dark"@, "Gruvbox Dark"@, true),
    ]
}

/// The catalogue entry at `index`, if there is one.
pub fn theme_at(index: usize) -> (r: Option<ThemeDef>)
    ensures
        index < theme_table().len() ==> (r matches Some(t) && (t.id@, t.name@, t.dark)
            == theme_table()[index as int]),
        index >= theme_table().len() ==> r is None,
{
    match index {
        0 => Some(ThemeDef { id: "dark", name: "Dark", dark: true }),
        1 => Some(ThemeDef { id: "light", name: "Light", dark: false }),
        2 => Some(ThemeDef { id: "catppuccin-mocha", name: "Catppuccin Mocha", dark: true }),
        3 => Some(ThemeDef { id: "catppuccin-latte", name: "Catppuccin Latte", dark: false }),
        4 => Some(ThemeDef { id: "tokyo-night", name: "Tokyo Night", dark: true }),
        5 => Some(ThemeDef { id: "atom-one-dark", name: "Atom One Dark", dark: true }),
        6 => Some(ThemeDef { id: "dracula", name: "Dracula", dark: true }),
        7 => Some(ThemeDef { id: "nord", name: "Nord", dark: true }),
        8 => Some(ThemeDef { id: "gruvbox-dark", name: "Gruvbox Dark", dark: true }),
        _ => None,
    }
}

/// The whole catalogue, in palette-index order.
pub fn themes() -> (r: Vec<ThemeDef>)
    ensures
        r@.len() == theme_table().len(),
        forall|i: int| 0 <= i < r@.len() ==> (r@[i].id@, r@[i].name@, r@[i].dark)
            == theme_table()[i],
{
    let mut r: Vec<ThemeDef> = Vec::new();
    let mut i: usize = 0;
    while i < THEME_COUNT
        invariant
            i <= THEME_COUNT,
            r@.len() == i,
            forall|j: int| 0 <= j < i ==> (r@[j].id@, r@[j].name@, r@[j].dark)
                == theme_table()[j],
        decreases THEME_COUNT - i,
    {
        match theme_at(i) {
            Some(t) => r.push(t),
            None => {},
        }
        i += 1;
    }
    r
}

/// Position of the first theme whose id is `id`; 0 (Dark) when none is.
pub open spec fn index_of_spec(id: Seq<char>) -> int {
    if exists|i: int| 0 <= i < theme_table().len() && theme_table()[i].0 == id {
        choose|i: int|
            0 <= i < theme_table().len() && theme_table()[i].0 == id && forall|j: int|
                0 <= j < i ==> theme_table()[j].0 != id
    } else {
        0
    }
}

fn str_eq(a: &str, b: &str) -> (r: bool)
    ensures
        r == (a@ == b@),
{
    crate::text::chars_eq(&chars_of(a), &chars_of(b))
}

/// Catalogue index for a theme `id`; falls back to 0 (Dark) for an unknown id
/// (e.g. a config written by a newer build, or a typo).
pub fn index_of(id: &str) -> (r: usize)
    ensures
        r == index_of_spec(id@),
{
    let mut i: usize = 0;
    while i < THEME_COUNT
        invariant
            i <= THEME_COUNT,
            forall|j: int| 0 <= j < i ==> theme_table()[j].0 != id@,
        decreases THEME_COUNT - i,
    {
        let t = match theme_at(i) {
            Some(t) => t,
            None => {
                return 0;
            },
        };
        if str_eq(t.id, id) {
            let ghost w = i as int;
            assert(0 <= w < theme_table().len() && theme_table()[w].0 == id@);
            let ghost c = choose|k: int|
                0 <= k < theme_table().len() && theme_table()[k].0 == id@ && forall|j: int|
                    0 <= j < k ==> theme_table()[j].0 != id@;
            assert(c == w) by {
                if c < w {
                } else if c > w {
                    assert(theme_table()[w].0 != id@);
                }
            }
            return i;
        }
        i += 1;
    }
    0
}

/// The id at `index`, "dark" out of range.
pub open spec fn id_of_spec(index: int) -> Seq<char> {
    if 0 <= index < theme_table().len() {
        theme_table()[index].0
    } else {
        "dark"@
    }
}

/// The stable `id` for a catalogue index; falls back to "dark" out of range.
pub fn id_of(index: usize) -> (r: &'static str)
    ensures
        r@ == id_of_spec(index as int),
{
    match theme_at(index) {
        Some(t) => t.id,
        None => "dark",
    }
}

/// Whether the theme at `index` uses dark window chrome; defaults to true.
pub fn is_dark(index: usize) -> (r: bool)
    ensures
        r == (if index < theme_table().len() {
            theme_table()[index as int].2
        } else {
            true
        }),
{
    match theme_at(index) {
        Some(t) => t.dark,
        None => true,
    }
}

/// Every id of the catalogue leads back to its own index, and an id that is
/// not in the catalogue leads to the first theme: the saved id and the
/// palette index never disagree.
pub proof fn law_theme_round_trip(i: int, id: Seq<char>)
    ensures
        0 <= i < theme_table().len() ==> index_of_spec(id_of_spec(i)) == i,
        (forall|j: int| 0 <= j < theme_table().len() ==> theme_table()[j].0 != id)
            ==> index_of_spec(id) == 0,
{
    reveal_strlit("dark");
    reveal_strlit("light");
    reveal_strlit("catppuccin-mocha");
    reveal_strlit("catppuccin-latte");
    reveal_strlit("tokyo-night");
    reveal_strlit("atom-one-dark");
    reveal_strlit("dracula");
    reveal_strlit("nord");
    reveal_strlit("gruvbox-dark");
    let t = theme_table();
    assert(forall|a: int, b: int| 0 <= a < b < t.len() ==> t[a].0 != t[b].0) by {
        assert forall|a: int, b: int| 0 <= a < b < t.len() implies t[a].0 != t[b].0 by {
            assert(t[a].0.len() != t[b].0.len() || t[a].0[0] != t[b].0[0] || t[a].0[1]
                != t[b].0[1] || t[a].0[11] != t[b].0[11]);
        }
    }
    if 0 <= i < t.len() {
        let id0 = id_of_spec(i);
        assert(t[i].0 == id0);
        let c = index_of_spec(id0);
        assert(0 <= c < t.len() && t[c].0 == id0);
    }
}

} // verus!
