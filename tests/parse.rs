use zk_notes::parse::{
    add_tag, extract_colon_tags, extract_frontmatter, extract_hashtags, extract_heading,
    extract_inline_tags, extract_lead, extract_tags, extract_title_and_body,
    extract_wiki_link_stems, parse_note, parse_yaml, wiki_link_stem, Frontmatter, Yaml,
};
use zk_notes::dates::parse_date_string;
use zk_notes::error::Error;
use zk_notes::text::word_count;

fn s(x: &str) -> Yaml {
    Yaml::Str(x.to_string())
}

#[test]
fn test_extract_frontmatter() {
    let content = "---\ntitle: Hello\ntags: [a, b]\n---\n# Hello\n\nBody here.";
    let (fm, offset) = extract_frontmatter(content);
    assert!(fm.is_some());
    let fm = fm.unwrap();
    assert!(fm.contains("title: Hello"));
    assert_eq!(&content[offset..], "# Hello\n\nBody here.");
}

#[test]
fn test_no_frontmatter() {
    let content = "# Just a heading\n\nSome body.";
    let (fm, offset) = extract_frontmatter(content);
    assert!(fm.is_none());
    assert_eq!(offset, 0);
}

#[test]
fn frontmatter_crlf_and_end_of_text() {
    let (fm, offset) = extract_frontmatter("---\r\ntitle: A\r\n---\r\nBody");
    assert_eq!(fm.as_deref(), Some("title: A\r"));
    assert_eq!(offset, 20);
    let (fm, offset) = extract_frontmatter("---\ntitle: A\n---");
    assert_eq!(fm.as_deref(), Some("title: A"));
    assert_eq!(offset, 16);
    let (fm, offset) = extract_frontmatter("---\ntitle: A\nno closing line");
    assert!(fm.is_none());
    assert_eq!(offset, 0);
}

#[test]
fn test_extract_heading() {
    assert_eq!(extract_heading("# Hello World"), Some("Hello World".into()));
    assert_eq!(extract_heading("## Sub heading"), Some("Sub heading".into()));
    assert_eq!(extract_heading("Not a heading"), None);
    assert_eq!(extract_heading("#nospace"), None);
}

#[test]
fn test_extract_tags_sequence() {
    let map = vec![(s("tags"), Yaml::List(vec![s("rust"), s("#coding")]))];
    let tags = extract_tags(&map);
    assert_eq!(tags, vec!["rust", "coding"]);
}

#[test]
fn test_extract_tags_string() {
    let map = vec![(s("tags"), s("rust #coding notes"))];
    let tags = extract_tags(&map);
    assert_eq!(tags, vec!["rust", "coding", "notes"]);
}

#[test]
fn test_extract_tags_dedup() {
    let map = vec![(s("tags"), Yaml::List(vec![s("rust"), s("Rust")]))];
    let tags = extract_tags(&map);
    assert_eq!(tags.len(), 1);
    assert_eq!(tags[0], "rust");
}

#[test]
fn tags_from_all_four_keys_in_order() {
    let map = vec![
        (s("Keyword"), s("d")),
        (s("keywords"), Yaml::List(vec![s("c"), s("A")])),
        (s("TAG"), s("b")),
        (s("tags"), s("a")),
    ];
    assert_eq!(extract_tags(&map), vec!["a", "b", "c", "d"]);
}

#[test]
fn whitespace_string_and_list_give_same_tags() {
    let as_string = extract_tags(&vec![(s("tags"), s("one  two\tthree"))]);
    let as_list = extract_tags(&vec![(s("tags"), Yaml::List(vec![s("one"), s("two"), s("three")]))]);
    assert_eq!(as_string, as_list);
}

#[test]
fn add_tag_normalizes_and_skips_empty() {
    let mut tags = Vec::new();
    add_tag("##Rust ", &mut tags);
    add_tag("#", &mut tags);
    add_tag("RUST", &mut tags);
    assert_eq!(tags, vec!["Rust"]);
}

#[test]
fn test_extract_lead() {
    let body = "First paragraph here.\n\nSecond paragraph.";
    assert_eq!(extract_lead(body), "First paragraph here.");
}

#[test]
fn test_extract_lead_no_blank_line() {
    let body = "Only one paragraph.";
    assert_eq!(extract_lead(body), "Only one paragraph.");
}

#[test]
fn test_parse_date_string() {
    assert!(parse_date_string("2024-01-15").is_some());
    assert!(parse_date_string("2024-01-15 10:30:00").is_some());
    assert!(parse_date_string("2024-01-15T10:30:00Z").is_some());
    assert!(parse_date_string("not a date").is_none());
}

#[test]
fn date_values() {
    assert_eq!(parse_date_string("1970-01-02"), Some(86400));
    assert_eq!(parse_date_string(" 2024-01-15T10:30:00Z "), Some(1705314600));
    assert_eq!(parse_date_string("2024-01-15 10:30:00"), Some(1705314600));
}

#[test]
fn test_title_from_frontmatter() {
    let fm = Frontmatter {
        title: Some("FM Title".into()),
        date: None,
        tags: Vec::new(),
        aliases: Vec::new(),
    };
    let (title, body) = extract_title_and_body("# Heading\n\nBody text", &fm);
    assert_eq!(title, "FM Title");
    assert_eq!(body, "# Heading\n\nBody text");
}

#[test]
fn test_title_from_heading() {
    let fm = Frontmatter::empty();
    let (title, body) = extract_title_and_body("# My Title\n\nSome body.", &fm);
    assert_eq!(title, "My Title");
    assert_eq!(body, "Some body.");
}

#[test]
fn no_title_when_first_line_is_not_heading() {
    let fm = Frontmatter::empty();
    let (title, body) = extract_title_and_body("\n  Text first\n# Later", &fm);
    assert_eq!(title, "");
    assert_eq!(body, "Text first\n# Later");
}

#[test]
fn test_colon_tags() {
    let mut tags = Vec::new();
    extract_colon_tags(":rust:", &mut tags);
    assert_eq!(tags, vec!["rust"]);
}

#[test]
fn test_colon_tags_chained() {
    let mut tags = Vec::new();
    extract_colon_tags(":se:programming:", &mut tags);
    assert_eq!(tags, vec!["se", "programming"]);
}

#[test]
fn colon_tags_partial_chain_and_lone_word() {
    let mut tags = Vec::new();
    extract_colon_tags("x :a:b :word", &mut tags);
    assert_eq!(tags, vec!["a"]);
}

#[test]
fn test_colon_tags_ignores_mid_line() {
    let mut tags = Vec::new();
    extract_colon_tags("see https://example.com:8080/path", &mut tags);
    assert!(tags.is_empty());
}

#[test]
fn test_hashtags() {
    let mut tags = Vec::new();
    extract_hashtags("#rust #coding", &mut tags);
    assert_eq!(tags, vec!["rust", "coding"]);
}

#[test]
fn test_hashtags_not_headings() {
    let mut tags = Vec::new();
    extract_hashtags("# Heading", &mut tags);
    assert!(tags.is_empty());
}

#[test]
fn hashtags_need_word_start() {
    let mut tags = Vec::new();
    extract_hashtags("a#b c#d #ok-1_x!", &mut tags);
    assert_eq!(tags, vec!["ok-1_x"]);
}

#[test]
fn test_inline_tags_skips_code_blocks() {
    let content = "body\n\n```\n:code:tag:\n#codetag\n```\n\n:real:";
    let tags = extract_inline_tags(content);
    assert_eq!(tags, vec!["real"]);
}

#[test]
fn test_inline_tags_real_note() {
    let content = "# Expression problem\n\nA challenge in programming.\n\n:se:programming:";
    let tags = extract_inline_tags(content);
    assert_eq!(tags, vec!["se", "programming"]);
}

#[test]
fn test_wiki_link_stem_bare() {
    assert_eq!(wiki_link_stem("abc123"), Some("abc123".to_string()));
}

#[test]
fn test_wiki_link_stem_relative() {
    assert_eq!(wiki_link_stem("./abc123"), Some("abc123".to_string()));
    assert_eq!(wiki_link_stem("../abc123"), Some("abc123".to_string()));
    assert_eq!(wiki_link_stem("../../abc123"), Some("abc123".to_string()));
}

#[test]
fn test_wiki_link_stem_rejects_url() {
    assert_eq!(wiki_link_stem("https://example.com"), None);
    assert_eq!(wiki_link_stem("file.md"), None);
}

#[test]
fn test_wiki_link_bare_stem() {
    assert_eq!(wiki_link_stem("65bs"), Some("65bs".into()));
}

#[test]
fn test_wiki_link_relative_parent() {
    assert_eq!(wiki_link_stem("../65bs"), Some("65bs".into()));
}

#[test]
fn test_wiki_link_relative_current() {
    assert_eq!(wiki_link_stem("./65bs"), Some("65bs".into()));
}

#[test]
fn test_wiki_link_relative_deep() {
    assert_eq!(wiki_link_stem("../../abc123"), Some("abc123".into()));
}

#[test]
fn test_wiki_link_rejects_url() {
    assert_eq!(wiki_link_stem("https://example.com"), None);
    assert_eq!(wiki_link_stem("http://example.com/foo"), None);
}

#[test]
fn test_wiki_link_rejects_extension() {
    assert_eq!(wiki_link_stem("file.txt"), None);
}

#[test]
fn wiki_link_stem_edge_cases() {
    assert_eq!(wiki_link_stem("../"), None);
    assert_eq!(wiki_link_stem(""), None);
    assert_eq!(wiki_link_stem("a-b"), None);
    assert_eq!(wiki_link_stem("./under_score"), Some("under_score".into()));
    assert_eq!(wiki_link_stem("éte"), Some("éte".into()));
}

#[test]
fn test_extract_wiki_link_stems_basic() {
    let body = "See [note one](abc) and [note two](./def).";
    let stems = extract_wiki_link_stems(body);
    assert_eq!(stems, vec!["abc", "def"]);
}

#[test]
fn test_extract_wiki_link_stems_skips_urls() {
    let body = "See [external](https://example.com) and [note](abc).";
    let stems = extract_wiki_link_stems(body);
    assert_eq!(stems, vec!["abc"]);
}

#[test]
fn test_extract_wiki_link_stems_skips_code_blocks() {
    let body = "Before.\n\n```\n[code](link_in_code)\n```\n\n[real](abc).";
    let stems = extract_wiki_link_stems(body);
    assert_eq!(stems, vec!["abc"]);
}

#[test]
fn link_stems_relative_and_external() {
    let stems = extract_wiki_link_stems("[note](../abc123) and [site](https://example.com)");
    assert_eq!(stems, vec!["abc123"]);
}

#[test]
fn parse_note_with_preamble() {
    let text = "---\ntitle: Hello\ntags: [a, b]\n---\n# Hello\n\nBody here.";
    let n = parse_note(text, "dir/n1.md", "/root/dir/n1.md", 100, None).unwrap();
    assert_eq!(n.title(), "Hello");
    assert_eq!(n.tags(), &["a", "b"]);
    assert_eq!(n.body(), "# Hello\n\nBody here.");
    assert_eq!(n.lead(), "# Hello");
    assert_eq!(n.filename(), "n1.md");
    assert_eq!(n.filename_stem(), "n1");
    assert_eq!(n.link(), "[Hello](dir/n1.md)");
    assert_eq!(n.created(), 100);
    assert_eq!(n.modified(), 100);
}

#[test]
fn parse_note_heading_only() {
    let n = parse_note("# Only Heading\n\nBody text.", "a.md", "/x/a.md", 5, Some(3)).unwrap();
    assert_eq!(n.title(), "Only Heading");
    assert_eq!(n.body(), "Body text.");
    assert_eq!(n.created(), 3);
}

#[test]
fn parse_note_merges_inline_tags_without_repeats() {
    let text = "---\ntags: Rust web\naliases: one\ndate: 1970-01-02\n---\nText #rust #new :WEB:new:\n";
    let n = parse_note(text, "t.md", "/t.md", 9, Some(1)).unwrap();
    assert_eq!(n.tags(), &["Rust", "web", "new"]);
    assert_eq!(n.aliases(), &["one"]);
    assert_eq!(n.created(), 86400);
    assert_eq!(n.word_count(), 13);
    assert!(n.has("RUST"));
    assert!(!n.has("rus"));
}

#[test]
fn parse_note_outgoing_links() {
    let n = parse_note("[note](../abc123) [site](https://example.com) [x](abc123)", "l.md", "/l.md", 0, None).unwrap();
    assert_eq!(n.outgoing_links(), &["abc123", "abc123"]);
}

#[test]
fn parse_note_bad_preamble_is_an_error() {
    let r = parse_note("---\ntitle: [unclosed\n---\nbody", "b.md", "/abs/b.md", 0, None);
    match r {
        Err(Error::Yaml { path, .. }) => assert_eq!(path, "/abs/b.md"),
        _ => panic!("expected a preamble error"),
    }
}

#[test]
fn parse_yaml_reads_fields_case_insensitively() {
    let fm = parse_yaml("Title: T\nDATE: 2024-01-01\naliases: [x, y]\nother: 3", "p").unwrap();
    assert_eq!(fm.title.as_deref(), Some("T"));
    assert_eq!(fm.date.as_deref(), Some("2024-01-01"));
    assert_eq!(fm.aliases, vec!["x", "y"]);
    let fm = parse_yaml("- just\n- a list", "p").unwrap();
    assert!(fm.title.is_none());
}

#[test]
fn words_are_counted_on_unicode_whitespace() {
    assert_eq!(word_count("a\u{a0}b  c\n"), 3);
    assert_eq!(word_count("   "), 0);
}

#[test]
fn closing_line_right_after_opener_is_empty_preamble() {
    let (fm, offset) = extract_frontmatter("---\n---\nbody");
    assert_eq!(fm.as_deref(), Some(""));
    assert_eq!(offset, 8);
    let (fm, offset) = extract_frontmatter("---\n---\nx\n---\n");
    assert_eq!(fm.as_deref(), Some(""));
    assert_eq!(offset, 8);
    let (fm, offset) = extract_frontmatter("---\r\n---\r\nb");
    assert_eq!(fm.as_deref(), Some(""));
    assert_eq!(offset, 10);
    let n = parse_note("---\n---\nbody", "e.md", "/e.md", 0, None).unwrap();
    assert_eq!(n.body(), "body");
}
