use edit_session::session::Session;

fn open_simple(s: &mut Session, name: &str, content: &str) {
    s.open(
        format!("/tmp/{}", name),
        name.to_string(),
        content.to_string(),
        None,
    );
}

fn keys_of(s: &Session) -> Vec<String> {
    s.docs.iter().map(|d| d.key.clone()).collect()
}

#[test]
fn new_session_is_empty() {
    let s = Session::new();
    assert_eq!(s.docs.len(), 0);
    assert!(s.active.is_none());
    assert_eq!(s.next_untitled, 1);
}

#[test]
fn create_three_documents_counts_up() {
    let mut s = Session::new();
    let k1 = s.create_new_file();
    let k2 = s.create_new_file();
    let k3 = s.create_new_file();
    assert_eq!(k1, "Untitled 1");
    assert_eq!(k2, "Untitled 2");
    assert_eq!(k3, "Untitled 3");
    assert_eq!(keys_of(&s), vec!["Untitled 1", "Untitled 2", "Untitled 3"]);
    assert_eq!(s.active, Some("Untitled 3".to_string()));
}

#[test]
fn counter_is_never_reused_after_close() {
    let mut s = Session::new();
    let k1 = s.create_new_file();
    let k2 = s.create_new_file();
    s.close(&k1);
    let k3 = s.create_new_file();
    assert_eq!((k1.as_str(), k2.as_str(), k3.as_str()), ("Untitled 1", "Untitled 2", "Untitled 3"));
}

#[test]
fn counter_renders_multiple_digits() {
    let mut s = Session::new();
    let mut last = String::new();
    for _ in 0..12 {
        last = s.create_new_file();
    }
    assert_eq!(last, "Untitled 12");
    assert_eq!(s.next_untitled, 13);
}

#[test]
fn create_skips_titles_already_open() {
    let mut s = Session::new();
    open_simple(&mut s, "Untitled 1", "taken");
    let k = s.create_new_file();
    assert_eq!(k, "Untitled 2");
    assert_eq!(s.docs.len(), 2);
}

#[test]
fn created_document_is_empty_and_unbound() {
    let mut s = Session::new();
    let k = s.create_new_file();
    let i = s.find_index(&k).unwrap();
    assert_eq!(s.docs[i].content, "");
    assert!(s.docs[i].source_path.is_none());
    assert!(s.docs[i].language_hint.is_none());
    assert_eq!(s.docs[i].title, k);
}

#[test]
fn open_appends_and_activates() {
    let mut s = Session::new();
    s.open(
        "/tmp/a.rs".to_string(),
        "a.rs".to_string(),
        "fn main() {}".to_string(),
        Some("Rust".to_string()),
    );
    assert_eq!(keys_of(&s), vec!["a.rs"]);
    assert_eq!(s.active, Some("a.rs".to_string()));
    let i = s.find_index("a.rs").unwrap();
    assert_eq!(s.docs[i].source_path, Some("/tmp/a.rs".to_string()));
    assert_eq!(s.docs[i].language_hint, Some("Rust".to_string()));
}

#[test]
fn open_same_name_twice_replaces_without_duplicate_tab() {
    let mut s = Session::new();
    open_simple(&mut s, "a.txt", "first");
    open_simple(&mut s, "b.txt", "other");
    open_simple(&mut s, "a.txt", "second");
    assert_eq!(keys_of(&s), vec!["a.txt", "b.txt"]);
    let i = s.find_index("a.txt").unwrap();
    assert_eq!(s.docs[i].content, "second");
    assert_eq!(s.active, Some("a.txt".to_string()));
}

#[test]
fn close_active_middle_tab_activates_last() {
    let mut s = Session::new();
    open_simple(&mut s, "A", "");
    open_simple(&mut s, "B", "");
    open_simple(&mut s, "C", "");
    s.active = Some("B".to_string());
    s.close("B");
    assert_eq!(keys_of(&s), vec!["A", "C"]);
    assert_eq!(s.active, Some("C".to_string()));
}

#[test]
fn close_inactive_tab_keeps_active() {
    let mut s = Session::new();
    open_simple(&mut s, "A", "");
    open_simple(&mut s, "B", "");
    s.close("A");
    assert_eq!(keys_of(&s), vec!["B"]);
    assert_eq!(s.active, Some("B".to_string()));
}

#[test]
fn close_last_tab_clears_active() {
    let mut s = Session::new();
    open_simple(&mut s, "A", "");
    s.close("A");
    assert_eq!(s.docs.len(), 0);
    assert!(s.active.is_none());
}

#[test]
fn close_absent_key_is_a_no_op() {
    let mut s = Session::new();
    open_simple(&mut s, "A", "text");
    s.close("missing");
    assert_eq!(keys_of(&s), vec!["A"]);
    assert_eq!(s.active, Some("A".to_string()));
}

#[test]
fn rename_rekeys_in_place_and_follows_active() {
    let mut s = Session::new();
    open_simple(&mut s, "A", "body");
    open_simple(&mut s, "B", "");
    s.active = Some("A".to_string());
    let applied = s.rename("A", "Alpha", None);
    assert!(applied);
    assert_eq!(keys_of(&s), vec!["Alpha", "B"]);
    let i = s.find_index("Alpha").unwrap();
    assert_eq!(s.docs[i].title, "Alpha");
    assert_eq!(s.docs[i].content, "body");
    assert_eq!(s.active, Some("Alpha".to_string()));
}

#[test]
fn rename_trims_the_new_title() {
    let mut s = Session::new();
    open_simple(&mut s, "A", "");
    let applied = s.rename("A", "  Alpha \t", None);
    assert!(applied);
    assert_eq!(keys_of(&s), vec!["Alpha"]);
}

#[test]
fn rename_to_blank_title_is_a_no_op() {
    let mut s = Session::new();
    open_simple(&mut s, "A", "body");
    assert!(!s.rename_applies("A", "   "));
    let applied = s.rename("A", "   ", None);
    assert!(!applied);
    assert_eq!(keys_of(&s), vec!["A"]);
}

#[test]
fn rename_absent_key_is_a_no_op() {
    let mut s = Session::new();
    open_simple(&mut s, "A", "");
    assert!(!s.rename_applies("missing", "B"));
    let applied = s.rename("missing", "B", None);
    assert!(!applied);
    assert_eq!(keys_of(&s), vec!["A"]);
}

#[test]
fn rename_onto_open_title_leaves_one_tab() {
    let mut s = Session::new();
    open_simple(&mut s, "A", "kept");
    open_simple(&mut s, "B", "lost");
    s.active = Some("A".to_string());
    let applied = s.rename("A", "B", None);
    assert!(applied);
    assert_eq!(keys_of(&s), vec!["B"]);
    let i = s.find_index("B").unwrap();
    assert_eq!(s.docs[i].content, "kept");
    assert_eq!(s.active, Some("B".to_string()));
}

#[test]
fn rename_updates_path_only_when_filesystem_rename_succeeded() {
    let mut s = Session::new();
    open_simple(&mut s, "A", "");
    s.rename("A", "B", Some("/tmp/B".to_string()));
    let i = s.find_index("B").unwrap();
    assert_eq!(s.docs[i].source_path, Some("/tmp/B".to_string()));
    s.rename("B", "C", None);
    let i = s.find_index("C").unwrap();
    assert_eq!(s.docs[i].source_path, Some("/tmp/B".to_string()));
}

#[test]
fn rename_keeps_the_stale_language_hint() {
    let mut s = Session::new();
    s.open(
        "/tmp/a.rs".to_string(),
        "a.rs".to_string(),
        String::new(),
        Some("Rust".to_string()),
    );
    s.rename("a.rs", "notes.txt", None);
    let i = s.find_index("notes.txt").unwrap();
    assert_eq!(s.docs[i].language_hint, Some("Rust".to_string()));
}

#[test]
fn save_target_prefers_the_bound_path() {
    let mut s = Session::new();
    open_simple(&mut s, "A", "");
    let t = s.save_target("A", Some("/elsewhere/A".to_string()));
    assert_eq!(t, Some("/tmp/A".to_string()));
}

#[test]
fn save_target_of_unbound_document_is_the_prompt_choice() {
    let mut s = Session::new();
    let k = s.create_new_file();
    let t = s.save_target(&k, Some("/tmp/chosen".to_string()));
    assert_eq!(t, Some("/tmp/chosen".to_string()));
}

#[test]
fn cancelled_prompt_saves_nothing_and_changes_nothing() {
    let mut s = Session::new();
    let k = s.create_new_file();
    let i = s.find_index(&k).unwrap();
    s.docs[i].content = "typed text".to_string();
    let t = s.save_target(&k, None);
    assert!(t.is_none());
    let i = s.find_index(&k).unwrap();
    assert!(s.docs[i].source_path.is_none());
    assert_eq!(s.docs[i].content, "typed text");
}

#[test]
fn record_saved_binds_the_document_on_success() {
    let mut s = Session::new();
    let k = s.create_new_file();
    s.record_saved(&k, "/tmp/chosen".to_string(), true);
    let i = s.find_index(&k).unwrap();
    assert_eq!(s.docs[i].source_path, Some("/tmp/chosen".to_string()));
    assert_eq!(s.docs[i].key, k);
}

#[test]
fn record_saved_changes_nothing_on_write_failure() {
    let mut s = Session::new();
    let k = s.create_new_file();
    s.record_saved(&k, "/tmp/chosen".to_string(), false);
    let i = s.find_index(&k).unwrap();
    assert!(s.docs[i].source_path.is_none());
}

#[test]
fn count_occurrences_reads_the_named_document() {
    let mut s = Session::new();
    open_simple(&mut s, "A", "aaa");
    assert_eq!(s.count_occurrences("A", "aa"), 1);
    assert_eq!(s.count_occurrences("A", ""), 0);
    assert_eq!(s.count_occurrences("missing", "aa"), 0);
    let i = s.find_index("A").unwrap();
    assert_eq!(s.docs[i].content, "aaa");
}

#[test]
fn replace_all_mutates_content_and_reports_count() {
    let mut s = Session::new();
    open_simple(&mut s, "A", "aaa");
    let n = s.replace_all("A", "aa", "b");
    assert_eq!(n, 1);
    let i = s.find_index("A").unwrap();
    assert_eq!(s.docs[i].content, "ba");
}

#[test]
fn replace_all_with_empty_needle_changes_nothing() {
    let mut s = Session::new();
    open_simple(&mut s, "A", "aaa");
    let n = s.replace_all("A", "", "x");
    assert_eq!(n, 0);
    let i = s.find_index("A").unwrap();
    assert_eq!(s.docs[i].content, "aaa");
}

#[test]
fn replace_all_on_absent_key_changes_nothing() {
    let mut s = Session::new();
    open_simple(&mut s, "A", "aaa");
    assert_eq!(s.replace_all("missing", "a", "b"), 0);
    let i = s.find_index("A").unwrap();
    assert_eq!(s.docs[i].content, "aaa");
}

#[test]
fn open_order_always_matches_registry() {
    let mut s = Session::new();
    let k1 = s.create_new_file();
    open_simple(&mut s, "A", "");
    s.rename("A", &k1, None);
    s.close(&k1);
    open_simple(&mut s, "B", "");
    // every key appears exactly once, and the active key is open
    let keys = keys_of(&s);
    for k in &keys {
        assert_eq!(keys.iter().filter(|x| *x == k).count(), 1);
    }
    if let Some(a) = &s.active {
        assert!(keys.contains(a));
    }
}

#[test]
fn active_key_reports_the_selection() {
    let mut s = Session::new();
    assert!(s.active_key().is_none());
    open_simple(&mut s, "A", "");
    assert_eq!(s.active_key(), Some("A".to_string()));
}
