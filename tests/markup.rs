use zk_notes::markup::{
    build_tree, collect_headings, heading_anchor, snippet_of, split_segments, start_tag, MdEvent,
    MdNode, MdStart, MdTag, NoteExt, NoteNavData, SegmentKind,
};
use zk_notes::parse::parse_note;

fn seg(text: &str) -> Vec<(SegmentKind, String)> {
    split_segments(text).into_iter().map(|s| (s.kind, s.text)).collect()
}

#[test]
fn test_heading_anchor_basic() {
    assert_eq!(heading_anchor("Hello World"), "hello-world");
}

#[test]
fn test_heading_anchor_deduplicates_hyphens() {
    assert_eq!(heading_anchor("Foo  Bar"), "foo-bar");
    assert_eq!(heading_anchor("A - B"), "a-b");
}

#[test]
fn test_heading_anchor_trims_trailing_hyphen() {
    assert_eq!(heading_anchor("Hello!"), "hello");
}

#[test]
fn test_heading_anchor_alphanumeric() {
    assert_eq!(heading_anchor("Step 1: Setup"), "step-1-setup");
}

#[test]
fn heading_anchor_trims_leading_hyphen() {
    assert_eq!(heading_anchor("  (Intro) "), "intro");
    assert_eq!(heading_anchor(""), "");
}

#[test]
fn url_drops_trailing_period() {
    assert_eq!(
        seg("see https://example.com."),
        vec![
            (SegmentKind::Text, "see ".to_string()),
            (SegmentKind::Url, "https://example.com".to_string()),
            (SegmentKind::Text, ".".to_string()),
        ]
    );
}

#[test]
fn segments_of_tags_and_chains() {
    assert_eq!(
        seg("hello #topic world :se:programming: end"),
        vec![
            (SegmentKind::Text, "hello ".to_string()),
            (SegmentKind::Tag, "#topic".to_string()),
            (SegmentKind::Text, " world ".to_string()),
            (SegmentKind::ColonTags, ":se:programming:".to_string()),
            (SegmentKind::Text, " end".to_string()),
        ]
    );
    assert_eq!(seg("a#b x:y: http://z)]"), vec![
        (SegmentKind::Text, "a#b x:y: ".to_string()),
        (SegmentKind::Url, "http://z".to_string()),
        (SegmentKind::Text, ")]".to_string()),
    ]);
    assert!(seg("").is_empty());
}

fn start(s: MdStart) -> MdEvent {
    MdEvent::Start(s)
}

#[test]
fn test_markdown_to_html_with_headings_empty() {
    let events = vec![start(MdStart::Paragraph), MdEvent::Text("Just a paragraph.".into()), MdEvent::End];
    let tree = build_tree(&events);
    assert!(collect_headings(&tree).is_empty());
}

#[test]
fn headings_from_events() {
    let events = vec![
        start(MdStart::Heading(1)),
        MdEvent::Text("First".into()),
        MdEvent::End,
        start(MdStart::Paragraph),
        MdEvent::Text("Body.".into()),
        MdEvent::End,
        start(MdStart::Heading(2)),
        MdEvent::Text("Step 1: ".into()),
        MdEvent::Code("Setup".into()),
        MdEvent::End,
    ];
    let tree = build_tree(&events);
    let hs = collect_headings(&tree);
    assert_eq!(hs.len(), 2);
    assert_eq!((hs[0].level, hs[0].text.as_str(), hs[0].anchor.as_str()), (1, "First", "first"));
    assert_eq!((hs[1].level, hs[1].text.as_str(), hs[1].anchor.as_str()), (2, "Step 1: Setup", "step-1-setup"));
}

#[test]
fn links_and_lists_are_classified() {
    let events = vec![
        start(MdStart::List(true)),
        start(MdStart::Item),
        start(MdStart::List(false)),
        start(MdStart::Item),
        start(MdStart::Link("../abc1".into())),
        MdEvent::Text("label #not-a-tag".into()),
        MdEvent::End,
        start(MdStart::Link("https://example.com".into())),
        MdEvent::Text("site".into()),
        MdEvent::End,
        MdEvent::End,
        MdEvent::End,
        MdEvent::End,
        MdEvent::End,
        MdEvent::End,
    ];
    let tree = build_tree(&events);
    let MdNode::Element(MdTag::Root, top) = &tree else { panic!("root") };
    let MdNode::Element(MdTag::OrderedList, items) = &top[0] else { panic!("list") };
    let MdNode::Element(MdTag::ListItem { ordered: true }, inner) = &items[0] else { panic!("item") };
    let MdNode::Element(MdTag::UnorderedList, items2) = &inner[0] else { panic!("inner list") };
    let MdNode::Element(MdTag::ListItem { ordered: false }, links) = &items2[0] else { panic!("nearest list") };
    match &links[0] {
        MdNode::Element(MdTag::WikiLink(stem), label) => {
            assert_eq!(stem, "abc1");
            assert!(matches!(&label[0], MdNode::Plain(t) if t == "label #not-a-tag"));
        },
        _ => panic!("wiki link"),
    }
    match &links[1] {
        MdNode::Element(MdTag::ExternalLink(url), label) => {
            assert_eq!(url, "https://example.com");
            assert!(matches!(&label[0], MdNode::Text(t) if t == "site"));
        },
        _ => panic!("external link"),
    }
}

#[test]
fn table_cells_and_code_blocks() {
    let stack = vec![(MdTag::Root, Vec::new()), (MdTag::Table, Vec::new()), (MdTag::TableHead, Vec::new())];
    assert!(matches!(start_tag(&MdStart::TableCell, &stack), MdTag::TableHeadCell));
    let body_stack = vec![(MdTag::Root, Vec::new()), (MdTag::Table, Vec::new())];
    assert!(matches!(start_tag(&MdStart::TableCell, &body_stack), MdTag::TableBodyCell));
    assert!(matches!(start_tag(&MdStart::CodeBlock(Some(String::new())), &stack), MdTag::CodeBlock(None)));
    match start_tag(&MdStart::CodeBlock(Some("rust".into())), &stack) {
        MdTag::CodeBlock(Some(l)) => assert_eq!(l, "rust"),
        _ => panic!("language"),
    }
    let tree = build_tree(&vec![MdEvent::End, start(MdStart::CodeBlock(None)), MdEvent::Text("#x".into())]);
    let MdNode::Element(MdTag::Root, top) = &tree else { panic!("root") };
    let MdNode::Element(MdTag::CodeBlock(None), code) = &top[0] else { panic!("code") };
    assert!(matches!(&code[0], MdNode::Plain(t) if t == "#x"));
}

#[test]
fn snippet_stops_after_forty_characters() {
    let long = "x".repeat(38);
    let events = vec![
        MdEvent::Text(long.clone()),
        MdEvent::SoftBreak,
        MdEvent::Code("ab".into()),
        MdEvent::Text("never".into()),
    ];
    assert_eq!(snippet_of(&events), format!("{long} ab"));
    let note = parse_note("# T\n\nbody", "t.md", "/t.md", 0, None).unwrap();
    assert_eq!(note.snippet(&vec![MdEvent::Text("body".into())]), "body");
}

#[test]
fn nav_data_emptiness() {
    let mut data = NoteNavData { headings: vec![], outgoing_links: vec![], backlinks: vec![], tags: vec![] };
    assert!(data.is_empty());
    data.tags.push("x".to_string());
    assert!(!data.is_empty());
}
