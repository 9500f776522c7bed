use zk_notes::error::Error;
use zk_notes::note::Note;
use zk_notes::notebook::{discover_md_files, find_stem, path_stem, Notebook, SourceFile};

fn file(path: &str, content: &str) -> SourceFile {
    SourceFile {
        path: path.to_string(),
        abs_path: format!("/nb/{path}"),
        content: content.to_string(),
        modified: 1000,
        birth: None,
    }
}

fn contents(path: &str) -> &'static str {
    match path {
        "note1.md" => "---\ntitle: First Note\ntags: [rust, testing]\ndate: 2024-06-15\n---\n# First Note\n\nThis is the body.\n\nSecond paragraph.",
        "note2.md" => "# Second Note\n\nAnother body here.",
        "subdir/note3.md" => "---\ntitle: Sub Note\ntags: [rust]\n---\nContent of sub note.",
        ".hidden/secret.md" => "# Secret\nShould not appear.",
        _ => "",
    }
}

fn setup_notebook() -> Notebook {
    let walked = vec![
        "subdir/note3.md".to_string(),
        ".hidden/secret.md".to_string(),
        "note2.md".to_string(),
        "note1.md".to_string(),
        "readme.txt".to_string(),
    ];
    let files = discover_md_files(walked)
        .iter()
        .map(|p| file(p, contents(p)))
        .collect();
    Notebook::load("/nb", true, files).unwrap()
}

#[test]
fn test_not_a_notebook() {
    let result = Notebook::load("/empty", false, Vec::new());
    assert!(result.is_err());
    let err = result.err().unwrap();
    assert!(matches!(err, Error::NotANotebook(_)));
}

#[test]
fn test_load_notebook() {
    let nb = setup_notebook();
    assert_eq!(nb.all_notes(None).len(), 3);
}

#[test]
fn test_note_lookup() {
    let nb = setup_notebook();
    let note = nb.note("note1").unwrap();
    assert_eq!(note.title(), "First Note");
    assert_eq!(note.filename(), "note1.md");
    assert_eq!(note.filename_stem(), "note1");
}

#[test]
fn test_tags() {
    let nb = setup_notebook();
    let all_tags = nb.all_tags();
    assert!(all_tags.iter().any(|t| t == "rust"));
    assert!(all_tags.iter().any(|t| t == "testing"));
    assert_eq!(nb.all_notes(Some("rust")).len(), 2);
    assert_eq!(nb.all_notes(Some("testing")).len(), 1);
}

#[test]
fn test_notes_with_tags() {
    let nb = setup_notebook();
    let both: Vec<&Note> = nb.notes_with_tags(&["rust", "testing"]);
    assert_eq!(both.len(), 1);
    assert_eq!(both[0].title(), "First Note");
}

#[test]
fn test_hidden_dir_skipped() {
    let nb = setup_notebook();
    assert!(nb.note("secret").is_none());
}

#[test]
fn test_note_fields() {
    let nb = setup_notebook();
    let note = nb.note("note1").unwrap();
    assert!(note.word_count() > 0);
    assert!(!note.link().is_empty());
    assert!(note.link().contains("note1.md"));
    assert_eq!(note.lead(), "# First Note");
    assert!(note.raw_content().contains("First Note"));
}

#[test]
fn test_heading_title() {
    let nb = setup_notebook();
    let note = nb.note("note2").unwrap();
    assert_eq!(note.title(), "Second Note");
    assert_eq!(note.body(), "Another body here.");
}

#[test]
fn test_subdirectory_note() {
    let nb = setup_notebook();
    let note = nb.note("note3").unwrap();
    assert_eq!(note.title(), "Sub Note");
    assert!(note.path().contains("subdir"));
}

#[test]
fn test_reload_existing() {
    let mut nb = setup_notebook();
    let changed = file(
        "note1.md",
        "---\ntitle: Updated Title\ntags: [updated]\ndate: 2024-06-15\n---\nNew body.",
    );
    nb.reload("note1", Some(changed)).unwrap();
    let note = nb.note("note1").unwrap();
    assert_eq!(note.title(), "Updated Title");
    assert_eq!(note.tags(), &["updated"]);
}

#[test]
fn test_reload_new_note() {
    let mut nb = setup_notebook();
    assert_eq!(nb.all_notes(None).len(), 3);
    let added = file("note4.md", "---\ntitle: Brand New\n---\nNew note content.");
    nb.reload("note4", Some(added)).unwrap();
    assert_eq!(nb.all_notes(None).len(), 4);
    let note = nb.note("note4").unwrap();
    assert_eq!(note.title(), "Brand New");
}

#[test]
fn test_search_titles() {
    let nb = setup_notebook();
    let results = nb.search_titles("First", None);
    let first = results.first();
    assert!(first.is_some());
    assert_eq!(first.unwrap().title(), "First Note");
}

#[test]
fn test_search_titles_with_tag() {
    let nb = setup_notebook();
    let results: Vec<&Note> = nb.search_titles("Note", Some("testing"));
    assert_eq!(results.len(), 1);
    assert_eq!(results[0].title(), "First Note");
}

#[test]
fn test_search_empty_query() {
    let nb = setup_notebook();
    assert_eq!(nb.search_titles("", None).len(), 3);
}

#[test]
fn test_has_tag() {
    let nb = setup_notebook();
    let note = nb.note("note1").unwrap();
    assert!(note.has("rust"));
    assert!(note.has("Rust"));
    assert!(!note.has("nonexistent"));
}

#[test]
fn test_all_notes_no_filter() {
    let nb = setup_notebook();
    assert_eq!(nb.all_notes(None).len(), 3);
}

#[test]
fn search_titles() {
    let files = vec![file("foo.md", "# foo"), file("bar.md", "# bar")];
    let nb = Notebook::load("/nb", true, files).unwrap();
    let result = nb.search_titles("fo", None);
    assert_eq!(result.len(), 1);
    assert_eq!(result[0].title(), "foo");
}

#[test]
fn discover_filters_and_sorts() {
    let found = discover_md_files(vec![
        "b.md".to_string(),
        "a-b.md".to_string(),
        "a/b.md".to_string(),
        ".zk/x.md".to_string(),
        "dir/.x.md".to_string(),
        "dir/.md".to_string(),
        "c.txt".to_string(),
        "a.b.md".to_string(),
    ]);
    assert_eq!(found, vec!["a/b.md", "a-b.md", "a.b.md", "b.md"]);
}

#[test]
fn remove_twice_is_a_no_op() {
    let mut nb = setup_notebook();
    nb.remove("note1");
    assert!(nb.note("note1").is_none());
    assert_eq!(nb.all_notes(None).len(), 2);
    assert!(!nb.all_tags().iter().any(|t| t == "testing"));
    let tags_before = nb.all_tags();
    nb.remove("note1");
    assert_eq!(nb.all_notes(None).len(), 2);
    assert_eq!(nb.all_tags(), tags_before);
    assert_eq!(nb.all_notes(Some("rust")).len(), 1);
}

#[test]
fn tag_index_follows_reload_and_remove() {
    let mut nb = setup_notebook();
    nb.reload("note3", Some(file("subdir/note3.md", "---\ntags: [Fresh]\n---\nx"))).unwrap();
    assert_eq!(nb.all_notes(Some("rust")).len(), 1);
    assert_eq!(nb.all_notes(Some("FRESH")).len(), 1);
    nb.remove("note3");
    assert_eq!(nb.all_notes(Some("fresh")).len(), 0);
    assert!(!nb.all_tags().iter().any(|t| t == "fresh"));
    let titles: Vec<&str> = nb.all_notes(None).iter().map(|n| n.title()).collect();
    assert_eq!(titles, vec!["First Note", "Second Note"]);
}

#[test]
fn two_tags_equal_intersection_of_listings() {
    let files = vec![
        file("a.md", "#a #b"),
        file("b.md", "#a"),
        file("c.md", "#B #A"),
        file("d.md", "#b"),
    ];
    let nb = Notebook::load("/nb", true, files).unwrap();
    let both: Vec<&str> = nb.notes_with_tags(&["a", "b"]).iter().map(|n| n.filename_stem()).collect();
    let by_a: Vec<&str> = nb.all_notes(Some("a")).iter().map(|n| n.filename_stem()).collect();
    let by_b: Vec<&str> = nb.all_notes(Some("b")).iter().map(|n| n.filename_stem()).collect();
    let common: Vec<&str> = by_a.iter().filter(|s| by_b.contains(s)).cloned().collect();
    assert_eq!(both, vec!["a", "c"]);
    assert_eq!(both, common);
    assert_eq!(nb.notes_with_tags(&[]).len(), 4);
}

#[test]
fn reload_keeps_position_and_ignores_other_stems() {
    let mut nb = setup_notebook();
    let before: Vec<String> = nb.all_notes(None).iter().map(|n| n.filename_stem().to_string()).collect();
    nb.reload("note2", Some(file("note2.md", "# Second Note\n\nAnother body here."))).unwrap();
    let after: Vec<String> = nb.all_notes(None).iter().map(|n| n.filename_stem().to_string()).collect();
    assert_eq!(before, after);
    nb.reload("note2", Some(file("other.md", "# Other"))).unwrap();
    assert!(nb.note("other").is_none());
    nb.reload("gone", None).unwrap();
    assert_eq!(nb.all_notes(None).len(), 3);
}

#[test]
fn reload_with_bad_preamble_keeps_state() {
    let mut nb = setup_notebook();
    let r = nb.reload("note2", Some(file("note2.md", "---\n: : [\n---\nx")));
    assert!(matches!(r, Err(Error::Yaml { .. })));
    assert_eq!(nb.note("note2").unwrap().title(), "Second Note");
}

#[test]
fn unmodified_reload_gives_the_same_note() {
    let mut nb = setup_notebook();
    let before = nb.note("note1").unwrap().clone();
    let mut again = file("note1.md", contents("note1.md"));
    again.modified = 2000;
    nb.reload("note1", Some(again)).unwrap();
    let after = nb.note("note1").unwrap();
    assert_eq!(after.title(), before.title());
    assert_eq!(after.body(), before.body());
    assert_eq!(after.tags(), before.tags());
    assert_eq!(after.created(), before.created());
    assert_eq!(after.modified(), 2000);
}

#[test]
fn load_fails_on_bad_preamble() {
    let files = vec![file("ok.md", "fine"), file("bad.md", "---\nkey: [\n---\n")];
    let r = Notebook::load("/nb", true, files);
    match r {
        Err(Error::Yaml { path, .. }) => assert_eq!(path, "/nb/bad.md"),
        _ => panic!("expected a preamble error"),
    }
}

#[test]
fn backlinks_and_outgoing_links() {
    let files = vec![
        file("a.md", "links to [b](b) #public"),
        file("b.md", "links to [a](./a)"),
        file("c.md", "links to [b](../b)"),
    ];
    let nb = Notebook::load("/nb", true, files).unwrap();
    let all: Vec<&str> = nb.backlinks("b", false).iter().map(|n| n.filename_stem()).collect();
    assert_eq!(all, vec!["a", "c"]);
    let public: Vec<&str> = nb.backlinks("b", true).iter().map(|n| n.filename_stem()).collect();
    assert_eq!(public, vec!["a"]);
    let stems = vec!["c".to_string(), "zz".to_string(), "a".to_string()];
    let out: Vec<&str> = nb.outgoing_links(&stems, false).iter().map(|n| n.filename_stem()).collect();
    assert_eq!(out, vec!["c", "a"]);
    let out: Vec<&str> = nb.outgoing_links(&stems, true).iter().map(|n| n.filename_stem()).collect();
    assert_eq!(out, vec!["a"]);
}

#[test]
fn later_file_with_same_stem_wins() {
    let files = vec![file("x/n.md", "# One"), file("y/n.md", "# Two")];
    let nb = Notebook::load("/nb", true, files).unwrap();
    assert_eq!(nb.all_notes(None).len(), 1);
    assert_eq!(nb.note("n").unwrap().title(), "Two");
}

#[test]
fn search_tag_orders_by_modification_time() {
    let mut a = file("a.md", "#t");
    a.modified = 5;
    let mut b = file("b.md", "#T");
    b.modified = 9;
    let mut c = file("c.md", "#other");
    c.modified = 7;
    let mut d = file("d.md", "#t");
    d.modified = 1;
    let nb = Notebook::load("/nb", true, vec![a, b, c, d]).unwrap();
    let stems: Vec<&str> = nb.search_tag("t").iter().map(|n| n.filename_stem()).collect();
    assert_eq!(stems, vec!["b", "a", "d"]);
    assert!(nb.search_tag("none").is_empty());
}

#[test]
fn stems_of_paths_and_first_match() {
    assert_eq!(path_stem("dir/a.b.md").iter().collect::<String>(), "a.b");
    assert_eq!(path_stem(".hidden").iter().collect::<String>(), ".hidden");
    let paths = vec!["x/n.md".to_string(), "y/m.md".to_string(), "z/m.md".to_string()];
    assert_eq!(find_stem(&paths, "m"), Some(1));
    assert_eq!(find_stem(&paths, "q"), None);
}

#[test]
fn load_error_names_first_failing_file_and_keeps_first_order() {
    let files = vec![file("ok.md", "fine"), file("bad1.md", "---\nk: [\n---\n"), file("bad2.md", "---\nk: [\n---\n")];
    match Notebook::load("/nb", true, files) {
        Err(Error::Yaml { path, .. }) => assert_eq!(path, "/nb/bad1.md"),
        _ => panic!("expected a preamble error"),
    }
    let files = vec![file("x/b.md", "# B1"), file("a.md", "# A"), file("y/b.md", "# B2")];
    let nb = Notebook::load("/nb", true, files).unwrap();
    let titles: Vec<&str> = nb.all_notes(None).iter().map(|n| n.title()).collect();
    assert_eq!(titles, vec!["B2", "A"]);
}
