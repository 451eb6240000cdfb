use magpie_app::backlinks::{find_references, line_links_to, link_mention, standalone_match};
use magpie_app::note::Note;
use magpie_app::notes_view::{note_list_title, note_tags, wiki_links};
use magpie_app::wiki_complete::{active_wiki_query, apply_wiki_completion, rank_matches};

#[test]
fn wiki_links_extracts_dedups_trims() {
    let b = "see [[Prod Incidents]] and [[ enhancer ]] and [[Prod Incidents]] and [[]]";
    assert_eq!(
        wiki_links(b),
        vec!["Prod Incidents".to_string(), "enhancer".to_string()]
    );
}

#[test]
fn wiki_links_handles_unclosed() {
    assert_eq!(wiki_links("a [[open only"), Vec::<String>::new());
    assert_eq!(wiki_links("none here"), Vec::<String>::new());
}

#[test]
fn note_tags_extracts_distinct_lowercased() {
    let b = "#Work\n- [ ] ship it #prod !high\n#work";
    assert_eq!(note_tags(b), vec!["work".to_string(), "prod".to_string()]);
}

#[test]
fn note_tags_ignores_bare_hash() {
    assert_eq!(note_tags("just a # and #! here"), Vec::<String>::new());
}

#[test]
fn note_tags_drops_trailing_punctuation() {
    assert_eq!(note_tags("all #done."), vec!["done".to_string()]);
}

#[test]
fn title_prefers_name_else_first_line() {
    assert_eq!(note_list_title("Prod Incidents", "body"), "Prod Incidents");
    assert_eq!(
        note_list_title("Note 1725270000000", "\n  Fix mount\nmore"),
        "Fix mount"
    );
    assert_eq!(note_list_title("", "  first\nsecond"), "first");
}

#[test]
fn title_truncates_long_first_line_to_60_chars() {
    let long = "x".repeat(100);
    let out = note_list_title("", &long);
    assert_eq!(out.chars().count(), 60);
    assert_eq!(out, "x".repeat(60));
}

#[test]
fn title_counts_chars_not_bytes_when_truncating() {
    // 70 multi-byte chars: truncation must cut at 60 CHARS, not bytes.
    let long = "é".repeat(70);
    let out = note_list_title("Note 42", &long);
    assert_eq!(out.chars().count(), 60);
}

#[test]
fn title_of_blank_auto_note_is_its_name() {
    assert_eq!(note_list_title("Note 7", "   \n  "), "Note 7");
}

#[test]
fn active_query_open_link() {
    let text = "hello [[foo";
    assert_eq!(active_wiki_query(text, text.len()), Some((8, "foo")));
}

#[test]
fn active_query_no_open_bracket() {
    assert_eq!(active_wiki_query("hello world", 5), None);
}

#[test]
fn active_query_closed_link() {
    let text = "see [[foo]]";
    assert_eq!(active_wiki_query(text, text.len()), None);
}

#[test]
fn active_query_newline_breaks_it() {
    let text = "[[foo\nbar";
    assert_eq!(active_wiki_query(text, text.len()), None);
}

#[test]
fn active_query_mid_partial_before_pipe() {
    let text = "a [[bar| baz";
    let caret = text.find('|').unwrap();
    assert_eq!(active_wiki_query(text, caret), Some((4, "bar")));
}

#[test]
fn active_query_counts_bytes_before_multibyte_text() {
    let text = "é [[fo";
    assert_eq!(active_wiki_query(text, 99), Some((5, "fo")));
}

#[test]
fn apply_completion_basic() {
    let text = "see [[fo";
    let (out, caret) = apply_wiki_completion(text, 8, "Foo Bar");
    assert_eq!(out, "see [[Foo Bar]]");
    assert_eq!(caret, out.len());
}

#[test]
fn apply_completion_preserves_trailing_text() {
    let text = "x [[fo rest";
    let caret = "x [[fo".len();
    let (out, new_caret) = apply_wiki_completion(text, caret, "Foo");
    assert_eq!(out, "x [[Foo]] rest");
    assert_eq!(new_caret, "x [[Foo]]".len());
}

#[test]
fn apply_completion_without_query_keeps_text_and_clamps_caret() {
    let (out, caret) = apply_wiki_completion("plain", 99, "Foo");
    assert_eq!(out, "plain");
    assert_eq!(caret, 5);
}

#[test]
fn rank_matches_prefix_beats_substring_and_case_insensitive() {
    let names = vec![
        "Alpha".to_string(),
        "Beta".to_string(),
        "Cabal".to_string(),
        "abacus".to_string(),
    ];
    let m = rank_matches(&names, "a", 10);
    assert_eq!(m, vec!["Alpha", "abacus", "Beta", "Cabal"]);
}

#[test]
fn rank_matches_empty_partial_returns_all_capped() {
    let names = vec!["One".to_string(), "Two".to_string(), "Three".to_string()];
    let m = rank_matches(&names, "", 2);
    assert_eq!(m, vec!["One", "Two"]);
}

#[test]
fn rank_matches_drops_non_matches() {
    let names = vec!["One".to_string(), "Two".to_string()];
    assert_eq!(rank_matches(&names, " tw ", 5), vec!["Two"]);
    assert!(rank_matches(&names, "zzz", 5).is_empty());
}

fn note(id: i64, name: &str, body: &str) -> Note {
    Note {
        id,
        name: name.to_string(),
        is_daily: false,
        body: body.to_string(),
        created_at_ms: 0,
        updated_at_ms: 0,
        source_app_id: None,
        source_entry_id: None,
    }
}

#[test]
fn classifies_linked_unlinked_and_excludes_self() {
    let notes = vec![
        note(1, "Target", "self mention Target should be skipped"),
        note(2, "A", "see [[Target]] here"),
        note(3, "B", "just a target mention"),
        note(4, "C", "my targetting is unrelated"),
        note(5, "D", "[[Target]] and target again"),
    ];
    let r = find_references("Target", &notes);
    let linked: Vec<i64> = r.linked.iter().map(|x| x.note_id).collect();
    let unlinked: Vec<i64> = r.unlinked.iter().map(|x| x.note_id).collect();
    assert_eq!(linked, vec![2, 5]);
    assert_eq!(unlinked, vec![3]);
}

#[test]
fn standalone_respects_word_boundaries() {
    let notes = vec![
        note(2, "A", "target"),
        note(3, "B", "(target)"),
        note(4, "C", "notebook"),
    ];
    assert_eq!(find_references("target", &notes).unlinked.len(), 2);
    assert!(find_references("note", &notes).unlinked.is_empty());
}

#[test]
fn link_mention_wraps_first_occurrence_preserving_case() {
    let body = "line one\nsee Target now\nline three";
    let out = link_mention(body, 1, "target");
    assert_eq!(out, "line one\nsee [[Target]] now\nline three");
}

#[test]
fn link_mention_is_idempotent_and_noop_when_absent() {
    let body = "see [[Target]] now";
    assert_eq!(link_mention(body, 0, "target"), body);
    let body2 = "nothing here";
    assert_eq!(link_mention(body2, 0, "target"), body2);
    assert_eq!(link_mention("x", 5, "target"), "x");
}

#[test]
fn standalone_match_reports_byte_offsets() {
    assert_eq!(standalone_match("é Target!", "target"), Some((3, 9)));
    assert_eq!(standalone_match("targets", "target"), None);
    assert_eq!(standalone_match("x", ""), None);
}

#[test]
fn line_links_to_compares_lowercased_trimmed_names() {
    assert!(line_links_to("a [[ Target ]] b", "target"));
    assert!(!line_links_to("a [[Targets]] b", "target"));
}

#[test]
fn references_keep_line_index_and_trimmed_line() {
    let notes = vec![note(9, "N", "first\n   about target   \n[[target]]")];
    let r = find_references(" target ", &notes);
    assert_eq!(r.unlinked.len(), 1);
    assert_eq!(r.unlinked[0].line_index, 1);
    assert_eq!(r.unlinked[0].line, "about target");
    assert_eq!(r.linked[0].line_index, 2);
    assert!(find_references("   ", &notes).linked.is_empty());
}

#[test]
fn linking_a_mention_twice_links_it_once() {
    let body = "intro\nsee Target here\nend";
    let once = link_mention(body, 1, "target");
    assert_eq!(once, "intro\nsee [[Target]] here\nend");
    assert_eq!(link_mention(&once, 1, "target"), once);
    // An unclosed `[[` earlier on the line swallows the new link when the line
    // is read back, so the mention is found again.
    let odd = "a [[ b Target";
    let first = link_mention(odd, 0, "Target");
    assert_eq!(first, "a [[ b [[Target]]");
    assert_eq!(link_mention(&first, 0, "Target"), "a [[ b [[[[Target]]]]");
}

#[test]
fn link_mention_changes_only_the_chosen_line() {
    let body = "Target first\nsee target here\nTarget last";
    let out = link_mention(body, 1, "Target");
    let before: Vec<&str> = body.split('\n').collect();
    let after: Vec<&str> = out.split('\n').collect();
    assert_eq!(after.len(), before.len());
    assert_eq!(after[0], before[0]);
    assert_eq!(after[2], before[2]);
    assert_eq!(after[1], "see [[target]] here");
}
