//! Choosing how to open an entry's text in the user's editor: which editor,
//! whether it needs a terminal, which terminals to try and with what argv,
//! and the temp file's name. Reading the environment and spawning processes
//! is the caller's part.
use vstd::prelude::*;
use vstd::string::StrSliceExecFns;
use crate::notes_view::string_views;
use crate::text::{
    char_is_whitespace, chars_eq, chars_of, contains, contains_exec, is_ascii_alnum, is_whitespace,
    lead_ws, lead_ws_exec, string_of, trim, trim_exec, views, words, words_exec,
};

verus! {

/// Number of leading characters of `s` that are not whitespace.
pub open spec fn token_len(s: Seq<char>) -> nat
    decreases s.len(),
{
    if s.len() > 0 && !char_is_whitespace(s[0]) {
        1 + token_len(s.drop_first())
    } else {
        0
    }
}

/// Position just after the last `/` of `t` (0 when there is none).
pub open spec fn after_last_slash(t: Seq<char>) -> int
    decreases t.len(),
{
    if t.len() == 0 {
        0
    } else if t.last() == '/' {
        t.len() as int
    } else {
        after_last_slash(t.drop_last())
    }
}

/// Character range `(start, end)` of the basename of the first token of `cmd`.
pub open spec fn bin_range(cmd: Seq<char>) -> (int, int) {
    let a = lead_ws(cmd) as int;
    let tok = cmd.skip(a).take(token_len(cmd.skip(a)) as int);
    (a + after_last_slash(tok), a + tok.len())
}

/// Basename of the first whitespace-separated token of a command.
pub open spec fn command_bin_spec(cmd: Seq<char>) -> Seq<char> {
    cmd.subrange(bin_range(cmd).0, bin_range(cmd).1)
}

proof fn lemma_token_len(s: Seq<char>, i: int)
    requires
        0 <= i <= s.len(),
        forall|j: int| 0 <= j < i ==> !char_is_whitespace(s[j]),
        i == s.len() || char_is_whitespace(s[i]),
    ensures
        token_len(s) == i,
    decreases i,
{
    if i > 0 {
        lemma_token_len(s.drop_first(), i - 1);
    }
}

proof fn lemma_after_last_slash(t: Seq<char>)
    ensures
        0 <= after_last_slash(t) <= t.len(),
    decreases t.len(),
{
    if t.len() > 0 && t.last() != '/' {
        lemma_after_last_slash(t.drop_last());
    }
}

/// basename of the first token of a command string (`/usr/bin/nvim -p` → `nvim`).
pub fn command_bin(cmd: &str) -> (r: &str)
    ensures
        r@ == command_bin_spec(cmd@),
{
    let v = chars_of(cmd);
    let a = lead_ws_exec(&v);
    proof {
        crate::text::lemma_lead_ws_bound(v@);
    }
    let mut e: usize = a;
    while e < v.len() && !is_whitespace(v[e])
        invariant
            a <= e <= v@.len(),
            forall|j: int| a <= j < e ==> !char_is_whitespace(v@[j]),
        decreases v.len() - e,
    {
        e += 1;
    }
    proof {
        lemma_token_len(v@.skip(a as int), e - a);
    }
    let mut s: usize = e;
    while s > a && v[s - 1] != '/'
        invariant
            a <= s <= e,
            e <= v@.len(),
            after_last_slash(v@.subrange(a as int, e as int)) == after_last_slash(
                v@.subrange(a as int, s as int),
            ),
        decreases s,
    {
        assert(v@.subrange(a as int, s as int).drop_last() =~= v@.subrange(a as int, s - 1));
        s -= 1;
    }
    assert(v@.skip(a as int).take((e - a) as int) =~= v@.subrange(a as int, e as int));
    cmd.substring_char(s, e)
}

/// Command names of editors that open their own window.
pub open spec fn gui_editors() -> Seq<Seq<char>> {
    seq![
        "code"@,
        "code-insiders"@,
        "codium"@,
        "zed"@,
        "subl"@,
        "sublime_text"@,
        "cursor"@,
        "mate"@,
        "gvim"@,
        "mvim"@,
        "gedit"@,
        "kate"@,
        "notepad"@,
        "notepad++"@,
    ]
}

fn gui_editor_list() -> (r: Vec<Vec<char>>)
    ensures
        views(r@) == gui_editors(),
{
    let mut r: Vec<Vec<char>> = Vec::new();
    r.push(chars_of("code"));
    r.push(chars_of("code-insiders"));
    r.push(chars_of("codium"));
    r.push(chars_of("zed"));
    r.push(chars_of("subl"));
    r.push(chars_of("sublime_text"));
    r.push(chars_of("cursor"));
    r.push(chars_of("mate"));
    r.push(chars_of("gvim"));
    r.push(chars_of("mvim"));
    r.push(chars_of("gedit"));
    r.push(chars_of("kate"));
    r.push(chars_of("notepad"));
    r.push(chars_of("notepad++"));
    assert(views(r@) =~= gui_editors());
    r
}

/// Whether an editor command needs a terminal: an explicit terminal flag
/// (`-nw`, `--no-window-system`, or a later `-t` / `-nw` token), or a command
/// name that is not a known GUI editor.
pub open spec fn is_terminal_editor_spec(cmd: Seq<char>) -> bool {
    if contains(cmd, "-nw"@) || contains(cmd, "--no-window-system"@) {
        true
    } else if exists|k: int|
        1 <= k < words(cmd).len() && (words(cmd)[k] == "-t"@ || words(cmd)[k] == "-nw"@) {
        true
    } else {
        !gui_editors().contains(command_bin_spec(cmd))
    }
}

/// Heuristic: does this editor command need a terminal? Unknown editors default to
/// terminal — routing a CLI editor to a terminal is correct, and routing a GUI
/// editor there merely leaves a spare terminal window; whereas mis-guessing a CLI
/// editor as GUI (spawning it with no TTY) silently does nothing.
pub fn is_terminal_editor(cmd: &str) -> (r: bool)
    ensures
        r == is_terminal_editor_spec(cmd@),
{
    let v = chars_of(cmd);
    if contains_exec(&v, &chars_of("-nw")) || contains_exec(&v, &chars_of("--no-window-system")) {
        return true;
    }
    let toks = words_exec(&v);
    let t_flag = chars_of("-t");
    let nw_flag = chars_of("-nw");
    let mut k: usize = 1;
    while k < toks.len()
        invariant
            1 <= k,
            !contains(cmd@, "-nw"@),
            !contains(cmd@, "--no-window-system"@),
            views(toks@) == words(cmd@),
            t_flag@ == "-t"@,
            nw_flag@ == "-nw"@,
            forall|j: int| 1 <= j < k && j < toks@.len() ==> !(words(cmd@)[j] == "-t"@ || words(
                cmd@,
            )[j] == "-nw"@),
        decreases toks.len() - k,
    {
        assert(views(toks@)[k as int] == toks@[k as int]@);
        if chars_eq(&toks[k], &t_flag) || chars_eq(&toks[k], &nw_flag) {
            return true;
        }
        k += 1;
    }
    let bin = chars_of(command_bin(cmd));
    let gui = gui_editor_list();
    let mut i: usize = 0;
    while i < gui.len()
        invariant
            i <= gui@.len(),
            views(gui@) == gui_editors(),
            bin@ == command_bin_spec(cmd@),
            forall|j: int| 0 <= j < i ==> gui_editors()[j] != bin@,
            !contains(cmd@, "-nw"@),
            !contains(cmd@, "--no-window-system"@),
            !exists|k: int|
                1 <= k < words(cmd@).len() && (words(cmd@)[k] == "-t"@ || words(cmd@)[k] == "-nw"@),
        decreases gui.len() - i,
    {
        assert(views(gui@)[i as int] == gui@[i as int]@);
        if chars_eq(&gui[i], &bin) {
            assert(gui_editors()[i as int] == bin@);
            assert(gui_editors().contains(command_bin_spec(cmd@)));
            return false;
        }
        i += 1;
    }
    true
}

/// The argv that runs `inner` inside the terminal `term`, whose basename is `bin`.
pub open spec fn terminal_argv_spec(bin: Seq<char>, term: Seq<char>, inner: Seq<char>) -> Seq<
    Seq<char>,
> {
    if bin == "kitty"@ {
        seq![term, "sh"@, "-lc"@, inner]
    } else if bin == "wezterm"@ {
        seq![term, "start"@, "--"@, "sh"@, "-lc"@, inner]
    } else {
        seq![term, "-e"@, "sh"@, "-lc"@, inner]
    }
}

/// The argv to run `inner` inside a terminal, given the terminal's basename.
pub fn terminal_argv(bin: &str, term: &str, inner: &str) -> (r: Vec<String>)
    ensures
        string_views(r@) == terminal_argv_spec(bin@, term@, inner@),
{
    let b = chars_of(bin);
    let t = String::from_str(term);
    let i = String::from_str(inner);
    let mut r: Vec<String> = Vec::new();
    if chars_eq(&b, &chars_of("kitty")) {
        r.push(t);
        r.push(String::from_str("sh"));
        r.push(String::from_str("-lc"));
        r.push(i);
    } else if chars_eq(&b, &chars_of("wezterm")) {
        r.push(t);
        r.push(String::from_str("start"));
        r.push(String::from_str("--"));
        r.push(String::from_str("sh"));
        r.push(String::from_str("-lc"));
        r.push(i);
    } else {
        r.push(t);
        r.push(String::from_str("-e"));
        r.push(String::from_str("sh"));
        r.push(String::from_str("-lc"));
        r.push(i);
    }
    assert(string_views(r@) =~= terminal_argv_spec(bin@, term@, inner@));
    r
}

/// The terminal a `$TERM_PROGRAM` value names, or empty for an unknown one.
pub open spec fn mapped_term(tp: Seq<char>) -> Seq<char> {
    if tp == "ghostty"@ || tp == "Ghostty"@ {
        "ghostty"@
    } else if tp == "WezTerm"@ {
        "wezterm"@
    } else if tp == "kitty"@ {
        "kitty"@
    } else if tp == "Alacritty"@ {
        "alacritty"@
    } else {
        seq![]
    }
}

/// Terminals to try, most preferred first: `$TERMINAL` if set and non-empty,
/// then the terminal `$TERM_PROGRAM` names, then the usual four.
pub open spec fn terminal_candidates_spec(terminal: Option<Seq<char>>, term_program: Option<Seq<char>>) -> Seq<
    Seq<char>,
> {
    let a = match terminal {
        Some(t) => if t.len() > 0 {
            seq![t]
        } else {
            seq![]
        },
        None => seq![],
    };
    let b = match term_program {
        Some(tp) => if mapped_term(tp).len() > 0 {
            seq![mapped_term(tp)]
        } else {
            seq![]
        },
        None => seq![],
    };
    a + b + seq!["ghostty"@, "kitty"@, "wezterm"@, "alacritty"@]
}

pub open spec fn opt_view(o: Option<&str>) -> Option<Seq<char>> {
    match o {
        Some(s) => Some(s@),
        None => None,
    }
}

/// Candidate terminal commands to try, most-preferred first, from the values
/// of `$TERMINAL` and `$TERM_PROGRAM`.
pub fn terminal_candidates(terminal: Option<&str>, term_program: Option<&str>) -> (r: Vec<String>)
    ensures
        string_views(r@) == terminal_candidates_spec(opt_view(terminal), opt_view(term_program)),
{
    let mut out: Vec<String> = Vec::new();
    let ghost a: Seq<Seq<char>> = seq![];
    match terminal {
        Some(t) => {
            if chars_of(t).len() > 0 {
                out.push(String::from_str(t));
            }
        },
        None => {},
    }
    let ghost o1 = string_views(out@);
    match term_program {
        Some(tp) => {
            let v = chars_of(tp);
            let m: &str = if chars_eq(&v, &chars_of("ghostty")) || chars_eq(&v, &chars_of("Ghostty")) {
                "ghostty"
            } else if chars_eq(&v, &chars_of("WezTerm")) {
                "wezterm"
            } else if chars_eq(&v, &chars_of("kitty")) {
                "kitty"
            } else if chars_eq(&v, &chars_of("Alacritty")) {
                "alacritty"
            } else {
                ""
            };
            assert(m@ == mapped_term(tp@)) by {
                reveal_strlit("");
            }
            if chars_of(m).len() > 0 {
                out.push(String::from_str(m));
            }
        },
        None => {},
    }
    let ghost o2 = string_views(out@);
    out.push(String::from_str("ghostty"));
    out.push(String::from_str("kitty"));
    out.push(String::from_str("wezterm"));
    out.push(String::from_str("alacritty"));
    assert(string_views(out@) =~= terminal_candidates_spec(opt_view(terminal), opt_view(term_program)));
    out
}

/// The editor command: `$VISUAL`, else `$EDITOR`, trimmed; `None` when neither
/// is set to something non-blank.
pub open spec fn pick_editor_spec(visual: Option<Seq<char>>, editor: Option<Seq<char>>) -> Option<Seq<char>> {
    match visual {
        Some(v) if trim(v).len() > 0 => Some(trim(v)),
        _ => match editor {
            Some(e) if trim(e).len() > 0 => Some(trim(e)),
            _ => None,
        },
    }
}

/// `$VISUAL` then `$EDITOR`, trimmed; `None` if neither is set/non-empty.
pub fn env_editor(visual: Option<&str>, editor: Option<&str>) -> (r: Option<String>)
    ensures
        r matches Some(s) ==> pick_editor_spec(opt_view(visual), opt_view(editor)) == Some(s@),
        r is None ==> pick_editor_spec(opt_view(visual), opt_view(editor)) is None,
{
    match visual {
        Some(v) => {
            let t = trim_exec(&chars_of(v));
            if t.len() > 0 {
                return Some(string_of(t.as_slice()));
            }
        },
        None => {},
    }
    match editor {
        Some(e) => {
            let t = trim_exec(&chars_of(e));
            if t.len() > 0 {
                return Some(string_of(t.as_slice()));
            }
        },
        None => {},
    }
    None
}

/// The first (up to) `n` ASCII letters and digits of `key`, from position `i` on.
pub open spec fn safe_chars(key: Seq<char>, i: int, n: nat) -> Seq<char>
    decreases key.len() - i, n,
{
    if n == 0 || i < 0 || i >= key.len() {
        seq![]
    } else if is_ascii_alnum(key[i]) {
        seq![key[i]] + safe_chars(key, i + 1, (n - 1) as nat)
    } else {
        safe_chars(key, i + 1, n)
    }
}

/// `magpie-<name>.txt`, where `name` is the first 24 ASCII letters and digits
/// of `key`, or `clip` when it has none.
pub open spec fn temp_file_name_spec(key: Seq<char>) -> Seq<char> {
    let safe = safe_chars(key, 0, 24);
    let name = if safe.len() == 0 {
        "clip"@
    } else {
        safe
    };
    "magpie-"@ + name + ".txt"@
}

fn is_ascii_alnum_exec(c: char) -> (r: bool)
    ensures
        r == is_ascii_alnum(c),
{
    ('a' <= c && c <= 'z') || ('A' <= c && c <= 'Z') || ('0' <= c && c <= '9')
}

proof fn lemma_safe_chars_len(key: Seq<char>, i: int, n: nat)
    ensures
        safe_chars(key, i, n).len() <= n,
    decreases key.len() - i, n,
{
    if n == 0 || i < 0 || i >= key.len() {
    } else if is_ascii_alnum(key[i]) {
        lemma_safe_chars_len(key, i + 1, (n - 1) as nat);
    } else {
        lemma_safe_chars_len(key, i + 1, n);
    }
}

/// The temp file name used for `key` (sanitized, so it can never leave the
/// temp directory): `magpie-<safe>.txt`.
pub fn temp_file_name(key: &str) -> (r: String)
    ensures
        r@ == temp_file_name_spec(key@),
{
    let k = chars_of(key);
    let mut safe: Vec<char> = Vec::new();
    let mut i: usize = 0;
    while i < k.len() && safe.len() < 24
        invariant
            i <= k@.len(),
            safe@.len() <= 24,
            safe@ + safe_chars(k@, i as int, (24 - safe@.len()) as nat) == safe_chars(k@, 0, 24),
        decreases k.len() - i,
    {
        if is_ascii_alnum_exec(k[i]) {
            let ghost s0 = safe@;
            safe.push(k[i]);
            assert(s0 + safe_chars(k@, i as int, (24 - s0.len()) as nat) =~= safe@
                + safe_chars(k@, i + 1, (24 - safe@.len()) as nat));
        }
        i += 1;
    }
    proof {
        if safe@.len() == 24 {
            assert(safe_chars(k@, i as int, 0) =~= Seq::<char>::empty());
        } else {
            assert(safe_chars(k@, i as int, (24 - safe@.len()) as nat) =~= Seq::<char>::empty());
        }
        assert(safe@ =~= safe_chars(k@, 0, 24));
    }
    let mut out = chars_of("magpie-");
    if safe.len() == 0 {
        crate::text::append_chars(&mut out, &chars_of("clip"));
    } else {
        crate::text::append_chars(&mut out, &safe);
    }
    crate::text::append_chars(&mut out, &chars_of(".txt"));
    string_of(out.as_slice())
}

} // verus!
