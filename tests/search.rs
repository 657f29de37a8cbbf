use ledger::{match_line, search_file, search_full_text, LoadedFile, SearchMatch, MAX_RESULTS};

fn file(path: &str, content: &str) -> LoadedFile {
    LoadedFile { path: path.to_string(), content: Some(content.to_string()) }
}

#[test]
fn search_full_text_finds_match() {
    let files = vec![
        file("notes.md", "Hello world\nThis is a test note\nWith multiple lines"),
        file("other.md", "Different content\nNo match here"),
    ];
    let r = search_full_text("hello", &files, None);
    assert_eq!(r.len(), 1);
    assert_eq!(r[0].file_path, "notes.md");
    assert_eq!(r[0].snippet_or_line, "Hello world");
    assert_eq!(r[0].start_offset, Some(0));
    assert_eq!(r[0].end_offset, Some(5));
}

#[test]
fn search_full_text_no_match() {
    let files = vec![file("notes.md", "Some content")];
    let r = search_full_text("nonexistent", &files, None);
    assert!(r.is_empty());
}

#[test]
fn results_are_capped_at_one_hundred() {
    let content: String = (0..50).map(|i| format!("match line {}\n", i)).collect();
    let files = vec![file("a.md", &content), file("b.md", &content), file("c.md", &content)];
    let r = search_full_text("MATCH", &files, Some(false));
    assert_eq!(r.len(), MAX_RESULTS);
    assert_eq!(r.len(), 100);
    assert_eq!(r[0].file_path, "a.md");
    assert_eq!(r[49].file_path, "a.md");
    assert_eq!(r[50].file_path, "b.md");
    assert_eq!(r[99].snippet_or_line, "match line 49");
    assert_eq!(r[99].file_path, "b.md");
}

#[test]
fn fuzzy_search_omits_offsets() {
    let files = vec![file("n.md", "Hello world")];
    let r = search_full_text("WORLD", &files, Some(true));
    assert_eq!(r.len(), 1);
    assert_eq!(r[0].start_offset, None);
    assert_eq!(r[0].end_offset, None);
}

#[test]
fn offsets_count_bytes() {
    let files = vec![file("n.md", "h\u{e9}llo w\u{f6}rld")];
    let r = search_full_text("W\u{d6}R", &files, None);
    assert_eq!(r.len(), 1);
    assert_eq!(r[0].start_offset, Some(7));
    assert_eq!(r[0].end_offset, Some(11));
}

#[test]
fn first_occurrence_is_reported() {
    let files = vec![file("n.md", "abcabc")];
    let r = search_full_text("bc", &files, None);
    assert_eq!(r.len(), 1);
    assert_eq!(r[0].start_offset, Some(1));
    assert_eq!(r[0].end_offset, Some(3));
}

#[test]
fn lines_split_on_crlf_and_skip_unreadable() {
    let files = vec![
        LoadedFile { path: "gone.md".to_string(), content: None },
        file("w.md", "one\r\ntwo\r\n\r\nthree"),
    ];
    let r = search_full_text("t", &files, None);
    let lines: Vec<&str> = r.iter().map(|m| m.snippet_or_line.as_str()).collect();
    assert_eq!(lines, vec!["two", "three"]);
    let all = search_full_text("", &files, None);
    assert_eq!(all.len(), 4);
    assert_eq!(all[2].snippet_or_line, "");
}

#[test]
fn search_file_stops_when_full() {
    let mut results: Vec<SearchMatch> = Vec::new();
    let content: String = (0..120).map(|i| format!("x{}\n", i)).collect();
    search_file(&mut results, "a.md", &content, "X", false);
    assert_eq!(results.len(), 100);
    search_file(&mut results, "b.md", "x again", "x", false);
    assert_eq!(results.len(), 100);
    assert_eq!(results[99].snippet_or_line, "x99");
}

#[test]
fn match_line_uses_the_lowered_forms() {
    let m = match_line("p.md", "Hello", "hello", "HEL", "hel", false).unwrap();
    assert_eq!(m.start_offset, Some(0));
    assert_eq!(m.end_offset, Some(3));
    assert!(match_line("p.md", "Hello", "Hello", "hel", "hel", false).is_none());
}
