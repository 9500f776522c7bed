//! Inline segments of text, heading anchors, and the tree of typed nodes
//! built from a markup parser's events.

use vstd::prelude::*;

use crate::note::Note;
use crate::parse::{at_word_start, tag_run_end, wiki_link_stem, wiki_stem, opt_view};
use crate::text::{alnum, chars_of, is_alphanumeric, is_space, is_whitespace, occurs, occurs_at, string_of, substring};

verus! {

/// `c` with ASCII letters lowercased.
pub open spec fn ascii_lower(c: char) -> char {
    if 'A' <= c && c <= 'Z' {
        ((c as u8) + 32) as char
    } else {
        c
    }
}

fn to_ascii_lower(c: char) -> (r: char)
    ensures
        r == ascii_lower(c),
{
    if 'A' <= c && c <= 'Z' {
        ((c as u8) + 32) as char
    } else {
        c
    }
}

/// The anchor of a heading text before its trailing hyphen is dropped:
/// alphanumerics lowercased, each run of other characters one hyphen, and no
/// hyphen at the start.
pub open spec fn anchor_acc(t: Seq<char>) -> Seq<char>
    decreases t.len(),
{
    if t.len() == 0 {
        seq![]
    } else {
        let a = anchor_acc(t.drop_last());
        let c = t.last();
        if alnum(c) {
            a.push(ascii_lower(c))
        } else if a.len() == 0 || a.last() == '-' {
            a
        } else {
            a.push('-')
        }
    }
}

/// The URL-safe anchor of a heading text.
pub open spec fn anchor_of(t: Seq<char>) -> Seq<char> {
    let a = anchor_acc(t);
    if a.len() > 0 && a.last() == '-' {
        a.drop_last()
    } else {
        a
    }
}

/// The URL-safe anchor of a heading text: ASCII-lowercased alphanumerics, any
/// run of other characters as one hyphen, no hyphen at either end.
pub fn heading_anchor(text: &str) -> (r: String)
    ensures
        r@ == anchor_of(text@),
{
    let t = chars_of(text);
    let mut a: Vec<char> = Vec::new();
    let mut i: usize = 0;
    while i < t.len()
        invariant
            i <= t@.len(),
            a@ == anchor_acc(t@.subrange(0, i as int)),
        decreases t@.len() - i,
    {
        assert(t@.subrange(0, i + 1).drop_last() =~= t@.subrange(0, i as int));
        let c = t[i];
        if is_alphanumeric(c) {
            a.push(to_ascii_lower(c));
        } else if a.len() == 0 || a[a.len() - 1] == '-' {
        } else {
            a.push('-');
        }
        i = i + 1;
    }
    assert(t@.subrange(0, t@.len() as int) =~= t@);
    if a.len() > 0 && a[a.len() - 1] == '-' {
        a.pop();
    }
    string_of(&a)
}

/// What a segment of inline text is.
#[derive(PartialEq, Eq, Structural, Clone, Copy, Debug)]
pub enum SegmentKind {
    /// Plain text, verbatim.
    Text,
    /// A `#hashtag`, with its `#`.
    Tag,
    /// A chain `:a:b:`, with its colons.
    ColonTags,
    /// An absolute URL, without trailing punctuation.
    Url,
}

/// One segment of inline text.
pub struct Segment {
    pub kind: SegmentKind,
    pub text: String,
}

/// The end of a colon chain whose next name starts at `k`: each name closed
/// by a `:` extends it; returns `k` where no name closed by `:` starts there.
pub open spec fn chain_end(l: Seq<char>, k: int) -> int
    decreases l.len() - k,
{
    let j = tag_run_end(l, k);
    if 0 <= k < j < l.len() && l[j] == ':' {
        chain_end(l, j + 1)
    } else {
        k
    }
}

pub proof fn lemma_chain_end(l: Seq<char>, k: int)
    requires
        0 <= k <= l.len(),
    ensures
        k <= chain_end(l, k) <= l.len(),
    decreases l.len() - k,
{
    crate::parse::lemma_tag_run_end(l, k);
    let j = tag_run_end(l, k);
    if 0 <= k < j < l.len() && l[j] == ':' {
        lemma_chain_end(l, j + 1);
    }
}

/// The end of a colon-tag chain that starts at `p`, if one does.
pub open spec fn colon_at(l: Seq<char>, p: int) -> Option<int> {
    if 0 <= p < l.len() && l[p] == ':' && at_word_start(l, p) && chain_end(l, p + 1) > p + 1 {
        Some(chain_end(l, p + 1))
    } else {
        None
    }
}

/// The end of a hashtag that starts at `p`, if one does.
pub open spec fn hashtag_at(l: Seq<char>, p: int) -> Option<int> {
    if 0 <= p < l.len() && l[p] == '#' && at_word_start(l, p) && tag_run_end(l, p + 1) > p + 1 {
        Some(tag_run_end(l, p + 1))
    } else {
        None
    }
}

/// Characters that may continue a URL: neither whitespace nor angle brackets.
pub open spec fn is_url_char(c: char) -> bool {
    !is_space(c) && c != '<' && c != '>'
}

/// The end of the run of URL characters that starts at `from`.
pub open spec fn url_run_end(l: Seq<char>, from: int) -> int
    decreases l.len() - from,
{
    if from < 0 || from >= l.len() || !is_url_char(l[from]) {
        from
    } else {
        url_run_end(l, from + 1)
    }
}

/// Prose punctuation that is not kept at the end of a URL.
pub open spec fn is_trailing_punct(c: char) -> bool {
    c == '.' || c == ',' || c == ';' || c == ':' || c == '!' || c == '?' || c == ')' || c == ']'
}

/// `e` moved back over trailing punctuation, not below `p`.
pub open spec fn trim_punct(l: Seq<char>, p: int, e: int) -> int
    decreases e - p,
{
    if p < e && e <= l.len() && is_trailing_punct(l[e - 1]) {
        trim_punct(l, p, e - 1)
    } else {
        e
    }
}

pub open spec fn http() -> Seq<char> {
    seq!['h', 't', 't', 'p', ':', '/', '/']
}

pub open spec fn https() -> Seq<char> {
    seq!['h', 't', 't', 'p', 's', ':', '/', '/']
}

/// The end of an absolute URL that starts at `p`, if one does: `http://` or
/// `https://`, one or more URL characters, less trailing punctuation.
pub open spec fn url_at(l: Seq<char>, p: int) -> Option<int> {
    let q = if occurs_at(l, p, https()) {
        p + 8
    } else if occurs_at(l, p, http()) {
        p + 7
    } else {
        -1
    };
    if q > p && url_run_end(l, q) > q {
        Some(trim_punct(l, p, url_run_end(l, q)))
    } else {
        None
    }
}

/// The segment that starts at `p`, tried in priority order: colon chain,
/// hashtag, URL.
pub open spec fn segment_at(l: Seq<char>, p: int) -> Option<(int, SegmentKind)> {
    match colon_at(l, p) {
        Some(e) => Some((e, SegmentKind::ColonTags)),
        None => match hashtag_at(l, p) {
            Some(e) => Some((e, SegmentKind::Tag)),
            None => match url_at(l, p) {
                Some(e) => Some((e, SegmentKind::Url)),
                None => None,
            },
        },
    }
}

/// The first position at or after `from` where a segment starts.
pub open spec fn next_segment(l: Seq<char>, from: int) -> Option<int>
    decreases l.len() - from,
{
    if from < 0 || from >= l.len() {
        None
    } else if segment_at(l, from) is Some {
        Some(from)
    } else {
        next_segment(l, from + 1)
    }
}

pub proof fn lemma_next_segment(l: Seq<char>, from: int)
    requires
        0 <= from,
    ensures
        next_segment(l, from) matches Some(p) ==> from <= p < l.len() && segment_at(l, p) is Some,
        next_segment(l, from) is None ==> forall|p: int| from <= p < l.len() ==> segment_at(l, p) is None,
    decreases l.len() - from,
{
    if from < l.len() && segment_at(l, from) is None {
        lemma_next_segment(l, from + 1);
    }
}

/// The segments of `l` from `pos` on: plain text between segments, each
/// segment as matched.
pub open spec fn split_from(l: Seq<char>, pos: int) -> Seq<(SegmentKind, Seq<char>)>
    decreases l.len() - pos,
{
    if pos < 0 || pos >= l.len() {
        seq![]
    } else {
        match next_segment(l, pos) {
            None => seq![(SegmentKind::Text, l.subrange(pos, l.len() as int))],
            Some(p) => match segment_at(l, p) {
                Some((e, k)) => if pos <= p < e <= l.len() {
                    (if pos < p {
                        seq![(SegmentKind::Text, l.subrange(pos, p))]
                    } else {
                        seq![]
                    }) + seq![(k, l.subrange(p, e))] + split_from(l, e)
                } else {
                    seq![]
                },
                None => seq![],
            },
        }
    }
}

pub open spec fn segments_of(l: Seq<char>) -> Seq<(SegmentKind, Seq<char>)> {
    split_from(l, 0)
}

pub open spec fn segment_views(s: Seq<Segment>) -> Seq<(SegmentKind, Seq<char>)> {
    s.map_values(|x: Segment| (x.kind, x.text@))
}

pub proof fn lemma_url_run_end(l: Seq<char>, from: int)
    requires
        0 <= from <= l.len(),
    ensures
        from <= url_run_end(l, from) <= l.len(),
    decreases l.len() - from,
{
    if from < l.len() && is_url_char(l[from]) {
        lemma_url_run_end(l, from + 1);
    }
}

pub proof fn lemma_trim_punct(l: Seq<char>, p: int, e: int)
    requires
        0 <= p < e <= l.len(),
        !is_trailing_punct(l[p]),
    ensures
        p < trim_punct(l, p, e) <= e,
    decreases e - p,
{
    if is_trailing_punct(l[e - 1]) {
        lemma_trim_punct(l, p, e - 1);
    }
}

/// A segment that starts at `p` ends after `p` and within the text.
pub proof fn lemma_segment_at(l: Seq<char>, p: int)
    requires
        0 <= p < l.len(),
    ensures
        segment_at(l, p) matches Some((e, _k)) ==> p < e <= l.len(),
{
    lemma_chain_end(l, p + 1);
    crate::parse::lemma_tag_run_end(l, p + 1);
    if occurs_at(l, p, https()) {
        assert(l[p] == l.subrange(p, p + 8)[0]);
        lemma_url_run_end(l, p + 8);
        if url_run_end(l, p + 8) > p + 8 {
            lemma_trim_punct(l, p, url_run_end(l, p + 8));
        }
    } else if occurs_at(l, p, http()) {
        assert(l[p] == l.subrange(p, p + 7)[0]);
        lemma_url_run_end(l, p + 7);
        if url_run_end(l, p + 7) > p + 7 {
            lemma_trim_punct(l, p, url_run_end(l, p + 7));
        }
    }
}

fn chain_end_of(l: &Vec<char>, k: usize) -> (r: usize)
    requires
        k <= l@.len(),
    ensures
        r == chain_end(l@, k as int),
        k <= r <= l@.len(),
{
    proof { lemma_chain_end(l@, k as int); }
    let mut k2: usize = k;
    loop
        invariant
            k <= k2 <= l@.len(),
            chain_end(l@, k as int) == chain_end(l@, k2 as int),
        decreases l@.len() - k2,
    {
        let j = crate::parse::tag_run(l, k2);
        if k2 < j && j < l.len() && l[j] == ':' {
            k2 = j + 1;
        } else {
            return k2;
        }
    }
}

fn url_char(c: char) -> (r: bool)
    ensures
        r == is_url_char(c),
{
    !is_whitespace(c) && c != '<' && c != '>'
}

fn trailing_punct(c: char) -> (r: bool)
    ensures
        r == is_trailing_punct(c),
{
    c == '.' || c == ',' || c == ';' || c == ':' || c == '!' || c == '?' || c == ')' || c == ']'
}

fn url_end(l: &Vec<char>, p: usize) -> (r: Option<usize>)
    requires
        p < l@.len(),
    ensures
        r matches Some(e) ==> url_at(l@, p as int) == Some(e as int),
        r is None ==> url_at(l@, p as int) is None,
{
    let n: usize = l.len();
    let s_pat: Vec<char> = vec!['h', 't', 't', 'p', 's', ':', '/', '/'];
    let pat: Vec<char> = vec!['h', 't', 't', 'p', ':', '/', '/'];
    assert(s_pat@ =~= https());
    assert(pat@ =~= http());
    let q: usize = if occurs(l, p, &s_pat) {
        p + 8
    } else if occurs(l, p, &pat) {
        p + 7
    } else {
        return None;
    };
    proof { lemma_url_run_end(l@, q as int); }
    let mut u: usize = q;
    while u < l.len() && url_char(l[u])
        invariant
            q <= u <= l@.len(),
            url_run_end(l@, q as int) == url_run_end(l@, u as int),
        decreases l@.len() - u,
    {
        u = u + 1;
    }
    if u == q {
        return None;
    }
    let mut e: usize = u;
    while p < e && trailing_punct(l[e - 1])
        invariant
            p <= e <= u <= l@.len(),
            trim_punct(l@, p as int, u as int) == trim_punct(l@, p as int, e as int),
        decreases e - p,
    {
        e = e - 1;
    }
    Some(e)
}

fn segment_start(l: &Vec<char>, p: usize) -> (r: Option<(usize, SegmentKind)>)
    requires
        p < l@.len(),
    ensures
        r matches Some((e, k)) ==> segment_at(l@, p as int) == Some((e as int, k)),
        r is None ==> segment_at(l@, p as int) is None,
{
    let n: usize = l.len();
    assert(p + 1 <= n);
    let word_start = p == 0 || crate::text::ascii_space(l[p - 1]);
    if l[p] == ':' && word_start {
        let e = chain_end_of(l, p + 1);
        if e > p + 1 {
            return Some((e, SegmentKind::ColonTags));
        }
    }
    if l[p] == '#' && word_start {
        let e = crate::parse::tag_run(l, p + 1);
        if e > p + 1 {
            return Some((e, SegmentKind::Tag));
        }
    }
    match url_end(l, p) {
        Some(e) => Some((e, SegmentKind::Url)),
        None => None,
    }
}

/// Splits inline text into plain text, hashtags, colon-tag chains and URLs.
/// At each position a colon chain is tried first, then a hashtag, then a
/// URL; the text between segments is kept verbatim.
pub fn split_segments(text: &str) -> (r: Vec<Segment>)
    ensures
        segment_views(r@) == segments_of(text@),
{
    let l = chars_of(text);
    let n = l.len();
    let mut out: Vec<Segment> = Vec::new();
    let mut pos: usize = 0;
    while pos < n
        invariant
            pos <= n == l@.len(),
            l@ == text@,
            segment_views(out@) + split_from(l@, pos as int) == segments_of(l@),
        decreases n - pos,
    {
        proof { lemma_next_segment(l@, pos as int); }
        let mut p: usize = pos;
        let mut found: Option<(usize, SegmentKind)> = None;
        while p < n && found.is_none()
            invariant
                pos <= p <= n == l@.len(),
                next_segment(l@, pos as int) == (if found is Some { Some(p as int) } else { next_segment(l@, p as int) }),
                found matches Some((e, k)) ==> p < n && segment_at(l@, p as int) == Some((e as int, k)),
            decreases n - p + (if found is Some { 0int } else { 1int }),
        {
            match segment_start(&l, p) {
                Some(x) => {
                    found = Some(x);
                },
                None => {
                    p = p + 1;
                },
            }
        }
        let ghost old_out = segment_views(out@);
        match found {
            None => {
                assert(next_segment(l@, p as int) is None);
                out.push(Segment { kind: SegmentKind::Text, text: substring(&l, pos, n) });
                assert(segment_views(out@) =~= old_out + seq![(SegmentKind::Text, l@.subrange(pos as int, n as int))]);
                assert(split_from(l@, n as int) =~= seq![]);
                pos = n;
            },
            Some((e, k)) => {
                proof { lemma_segment_at(l@, p as int); }
                if pos < p {
                    out.push(Segment { kind: SegmentKind::Text, text: substring(&l, pos, p) });
                }
                out.push(Segment { kind: k, text: substring(&l, p, e) });
                assert(segment_views(out@) =~= old_out + (if pos < p {
                    seq![(SegmentKind::Text, l@.subrange(pos as int, p as int))]
                } else {
                    seq![]
                }) + seq![(k, l@.subrange(p as int, e as int))]);
                pos = e;
            },
        }
    }
    assert(split_from(l@, pos as int) =~= seq![]);
    assert(segment_views(out@) + seq![] =~= segment_views(out@));
    out
}

/// The kinds of block quote alerts.
#[derive(PartialEq, Eq, Structural, Clone, Copy, Debug)]
pub enum AdmonitionKind {
    Note,
    Tip,
    Important,
    Warning,
    Caution,
}

/// What a start event of a markup parser opens.
pub enum MdStart {
    Paragraph,
    Heading(u8),
    BlockQuote,
    Admonition(AdmonitionKind),
    /// A code block, with the info string of a fenced one.
    CodeBlock(Option<String>),
    /// A list; `true` when it is ordered.
    List(bool),
    Item,
    Emphasis,
    Strong,
    Strikethrough,
    Link(String),
    Table,
    TableHead,
    TableRow,
    TableCell,
    Image { url: String, title: String },
    /// Anything else the parser opens.
    Other,
}

/// One event of a markup parser's stream.
pub enum MdEvent {
    Start(MdStart),
    /// Closes the innermost open construct.
    End,
    Text(String),
    Code(String),
    Html(String),
    SoftBreak,
    HardBreak,
    Rule,
}

/// The kind of an element of the tree.
pub enum MdTag {
    Root,
    Paragraph,
    Heading(u8),
    BlockQuote,
    Admonition(AdmonitionKind),
    CodeBlock(Option<String>),
    OrderedList,
    UnorderedList,
    ListItem { ordered: bool },
    Emphasis,
    Strong,
    Strikethrough,
    /// A link to another note, by stem.
    WikiLink(String),
    /// A link to anything else, by URL.
    ExternalLink(String),
    Table,
    TableHead,
    TableRow,
    TableHeadCell,
    TableBodyCell,
    Image { url: String, title: String },
}

/// A node of the tree.
pub enum MdNode {
    Element(MdTag, Vec<MdNode>),
    /// Text that the segment splitter goes over.
    Text(String),
    /// Text shown verbatim (inside code blocks and wiki-link labels).
    Plain(String),
    InlineCode(String),
    RawHtml(String),
    SoftBreak,
    HardBreak,
    Rule,
}

/// An element kind as a value: strings as their characters.
pub enum TagV {
    Root,
    Paragraph,
    Heading(u8),
    BlockQuote,
    Admonition(AdmonitionKind),
    CodeBlock(Option<Seq<char>>),
    OrderedList,
    UnorderedList,
    ListItem(bool),
    Emphasis,
    Strong,
    Strikethrough,
    WikiLink(Seq<char>),
    ExternalLink(Seq<char>),
    Table,
    TableHead,
    TableRow,
    TableHeadCell,
    TableBodyCell,
    Image(Seq<char>, Seq<char>),
}

/// A leaf node as a value.
pub enum LeafV {
    Text(Seq<char>),
    Plain(Seq<char>),
    InlineCode(Seq<char>),
    RawHtml(Seq<char>),
    SoftBreak,
    HardBreak,
    Rule,
}

/// A tree as a value.
pub enum TreeV {
    Node(TagV, Seq<TreeV>),
    Leaf(LeafV),
}

pub open spec fn tag_view(t: MdTag) -> TagV {
    match t {
        MdTag::Root => TagV::Root,
        MdTag::Paragraph => TagV::Paragraph,
        MdTag::Heading(l) => TagV::Heading(l),
        MdTag::BlockQuote => TagV::BlockQuote,
        MdTag::Admonition(k) => TagV::Admonition(k),
        MdTag::CodeBlock(l) => TagV::CodeBlock(opt_view(l)),
        MdTag::OrderedList => TagV::OrderedList,
        MdTag::UnorderedList => TagV::UnorderedList,
        MdTag::ListItem { ordered } => TagV::ListItem(ordered),
        MdTag::Emphasis => TagV::Emphasis,
        MdTag::Strong => TagV::Strong,
        MdTag::Strikethrough => TagV::Strikethrough,
        MdTag::WikiLink(s) => TagV::WikiLink(s@),
        MdTag::ExternalLink(u) => TagV::ExternalLink(u@),
        MdTag::Table => TagV::Table,
        MdTag::TableHead => TagV::TableHead,
        MdTag::TableRow => TagV::TableRow,
        MdTag::TableHeadCell => TagV::TableHeadCell,
        MdTag::TableBodyCell => TagV::TableBodyCell,
        MdTag::Image { url, title } => TagV::Image(url@, title@),
    }
}

/// Whether the nearest list among the open tags is ordered.
pub open spec fn in_ordered_list(open: Seq<TagV>) -> bool
    decreases open.len(),
{
    if open.len() == 0 {
        false
    } else {
        match open.last() {
            TagV::OrderedList => true,
            TagV::UnorderedList => false,
            _ => in_ordered_list(open.drop_last()),
        }
    }
}

/// Whether a table head is among the open tags.
pub open spec fn in_table_head(open: Seq<TagV>) -> bool {
    exists|i: int| 0 <= i < open.len() && open[i] is TableHead
}

/// Whether a code block or a wiki link is among the open tags.
pub open spec fn in_verbatim(open: Seq<TagV>) -> bool {
    exists|i: int| 0 <= i < open.len() && (open[i] is CodeBlock || open[i] is WikiLink)
}

/// The element kind that start event `s` opens under the open tags: an item
/// takes the order of its nearest list, a cell is a head cell inside a table
/// head, a link is a wiki link exactly when its target names a stem, and a
/// code block's empty info string counts as none.
pub open spec fn start_view(s: MdStart, open: Seq<TagV>) -> TagV {
    match s {
        MdStart::Paragraph => TagV::Paragraph,
        MdStart::Heading(l) => TagV::Heading(l),
        MdStart::BlockQuote => TagV::BlockQuote,
        MdStart::Admonition(k) => TagV::Admonition(k),
        MdStart::CodeBlock(lang) => TagV::CodeBlock(
            match lang {
                Some(x) => if x@.len() > 0 {
                    Some(x@)
                } else {
                    None
                },
                None => None,
            },
        ),
        MdStart::List(o) => if o {
            TagV::OrderedList
        } else {
            TagV::UnorderedList
        },
        MdStart::Item => TagV::ListItem(in_ordered_list(open)),
        MdStart::Emphasis => TagV::Emphasis,
        MdStart::Strong => TagV::Strong,
        MdStart::Strikethrough => TagV::Strikethrough,
        MdStart::Link(url) => match wiki_stem(url@) {
            Some(st) => TagV::WikiLink(st),
            None => TagV::ExternalLink(url@),
        },
        MdStart::Table => TagV::Table,
        MdStart::TableHead => TagV::TableHead,
        MdStart::TableRow => TagV::TableRow,
        MdStart::TableCell => if in_table_head(open) {
            TagV::TableHeadCell
        } else {
            TagV::TableBodyCell
        },
        MdStart::Image { url, title } => TagV::Image(url@, title@),
        MdStart::Other => TagV::Root,
    }
}

/// The open frames of the tree builder as values: kind and children so far.
pub type FramesV = Seq<(TagV, Seq<TreeV>)>;

pub open spec fn open_tags(st: FramesV) -> Seq<TagV> {
    st.map_values(|f: (TagV, Seq<TreeV>)| f.0)
}

/// `n` appended to the children of the innermost frame.
pub open spec fn attach_v(st: FramesV, n: TreeV) -> FramesV {
    if st.len() == 0 {
        st
    } else {
        st.update(st.len() - 1, (st.last().0, st.last().1.push(n)))
    }
}

/// The innermost frame closed into an element of its parent.
pub open spec fn close_v(st: FramesV) -> FramesV {
    attach_v(st.drop_last(), TreeV::Node(st.last().0, st.last().1))
}

/// The node a leaf event makes under the open frames.
pub open spec fn leaf_of(st: FramesV, e: MdEvent) -> TreeV {
    match e {
        MdEvent::Text(t) => if in_verbatim(open_tags(st)) {
            TreeV::Leaf(LeafV::Plain(t@))
        } else {
            TreeV::Leaf(LeafV::Text(t@))
        },
        MdEvent::Code(c) => TreeV::Leaf(LeafV::InlineCode(c@)),
        MdEvent::Html(h) => TreeV::Leaf(LeafV::RawHtml(h@)),
        MdEvent::SoftBreak => TreeV::Leaf(LeafV::SoftBreak),
        MdEvent::HardBreak => TreeV::Leaf(LeafV::HardBreak),
        _ => TreeV::Leaf(LeafV::Rule),
    }
}

/// One step of the tree builder: a start event opens a frame, an end event
/// closes the innermost frame (none is closed when only the root is open),
/// any other event adds a leaf to the innermost frame.
pub open spec fn step_v(st: FramesV, e: MdEvent) -> FramesV {
    match e {
        MdEvent::Start(s) => st.push((start_view(s, open_tags(st)), seq![])),
        MdEvent::End => if st.len() > 1 {
            close_v(st)
        } else {
            st
        },
        _ => attach_v(st, leaf_of(st, e)),
    }
}

/// The frames after the events `evs`, from the root frame alone.
pub open spec fn frames_after(evs: Seq<MdEvent>) -> FramesV
    decreases evs.len(),
{
    if evs.len() == 0 {
        seq![(TagV::Root, seq![])]
    } else {
        step_v(frames_after(evs.drop_last()), evs.last())
    }
}

/// All frames but the root closed in turn.
pub open spec fn finish_v(st: FramesV) -> FramesV
    decreases st.len(),
{
    if st.len() > 1 {
        finish_v(close_v(st))
    } else {
        st
    }
}

proof fn lemma_close_root(st: FramesV)
    requires
        st.len() > 1,
        st[0].0 == TagV::Root,
    ensures
        close_v(st).len() == st.len() - 1,
        close_v(st)[0].0 == TagV::Root,
{
}

/// The frames after any events: the root frame first, and never none.
pub proof fn lemma_root_frame(evs: Seq<MdEvent>)
    ensures
        frames_after(evs).len() > 0,
        frames_after(evs)[0].0 == TagV::Root,
    decreases evs.len(),
{
    if evs.len() > 0 {
        lemma_root_frame(evs.drop_last());
        let st = frames_after(evs.drop_last());
        match evs.last() {
            MdEvent::End => {
                if st.len() > 1 {
                    lemma_close_root(st);
                }
            },
            _ => {},
        }
    }
}

/// The tree of an event stream: the root element with what the builder
/// gathered once every frame still open is closed.
pub open spec fn tree_of(evs: Seq<MdEvent>) -> TreeV {
    let f = finish_v(frames_after(evs));
    TreeV::Node(TagV::Root, f[0].1)
}

broadcast use vstd::std_specs::vec::axiom_vec_index_decreases;

/// A node as a value.
pub open spec fn node_view(n: MdNode) -> TreeV
    decreases n, 0int,
{
    match n {
        MdNode::Element(t, ch) => TreeV::Node(tag_view(t), children_view(ch, ch@.len() as int)),
        MdNode::Text(t) => TreeV::Leaf(LeafV::Text(t@)),
        MdNode::Plain(t) => TreeV::Leaf(LeafV::Plain(t@)),
        MdNode::InlineCode(t) => TreeV::Leaf(LeafV::InlineCode(t@)),
        MdNode::RawHtml(t) => TreeV::Leaf(LeafV::RawHtml(t@)),
        MdNode::SoftBreak => TreeV::Leaf(LeafV::SoftBreak),
        MdNode::HardBreak => TreeV::Leaf(LeafV::HardBreak),
        MdNode::Rule => TreeV::Leaf(LeafV::Rule),
    }
}

/// The first `i` nodes of `ch` as values.
pub open spec fn children_view(ch: Vec<MdNode>, i: int) -> Seq<TreeV>
    decreases ch, i,
{
    if i <= 0 || i > ch@.len() {
        seq![]
    } else {
        children_view(ch, i - 1).push(node_view(ch[i - 1]))
    }
}

proof fn lemma_children_view_prefix(a: Vec<MdNode>, b: Vec<MdNode>, i: int)
    requires
        0 <= i <= a@.len(),
        i <= b@.len(),
        a@.subrange(0, i) == b@.subrange(0, i),
    ensures
        children_view(a, i) == children_view(b, i),
    decreases i,
{
    if i > 0 {
        assert(a@.subrange(0, i - 1) =~= a@.subrange(0, i).subrange(0, i - 1));
        assert(b@.subrange(0, i - 1) =~= b@.subrange(0, i).subrange(0, i - 1));
        assert(a[i - 1] == a@.subrange(0, i)[i - 1]);
        assert(b[i - 1] == b@.subrange(0, i)[i - 1]);
        lemma_children_view_prefix(a, b, i - 1);
    }
}

pub open spec fn frame_view(f: (MdTag, Vec<MdNode>)) -> (TagV, Seq<TreeV>) {
    (tag_view(f.0), children_view(f.1, f.1@.len() as int))
}

pub open spec fn frames_view(stack: Seq<(MdTag, Vec<MdNode>)>) -> FramesV {
    stack.map_values(|f: (MdTag, Vec<MdNode>)| frame_view(f))
}

/// The element kind that a start event opens under the open frames.
pub fn start_tag(s: &MdStart, stack: &Vec<(MdTag, Vec<MdNode>)>) -> (r: MdTag)
    ensures
        tag_view(r) == start_view(*s, open_tags(frames_view(stack@))),
{
    let ghost open = open_tags(frames_view(stack@));
    match s {
        MdStart::Paragraph => MdTag::Paragraph,
        MdStart::Heading(l) => MdTag::Heading(*l),
        MdStart::BlockQuote => MdTag::BlockQuote,
        MdStart::Admonition(k) => MdTag::Admonition(*k),
        MdStart::CodeBlock(lang) => match lang {
            Some(x) => if x.as_str().is_empty() {
                MdTag::CodeBlock(None)
            } else {
                MdTag::CodeBlock(Some(String::from_str(x.as_str())))
            },
            None => MdTag::CodeBlock(None),
        },
        MdStart::List(o) => if *o {
            MdTag::OrderedList
        } else {
            MdTag::UnorderedList
        },
        MdStart::Item => {
            let mut i: usize = stack.len();
            let mut ordered = false;
            assert(open.subrange(0, i as int) =~= open);
            loop
                invariant
                    i <= stack@.len(),
                    open == open_tags(frames_view(stack@)),
                    in_ordered_list(open) == in_ordered_list(open.subrange(0, i as int)),
                ensures
                    ordered == in_ordered_list(open),
                decreases i,
            {
                if i == 0 {
                    ordered = false;
                    break;
                }
                let ghost pre = open.subrange(0, i as int);
                assert(pre.drop_last() =~= open.subrange(0, i - 1));
                assert(pre.last() == tag_view(stack@[i - 1].0));
                match &stack[i - 1].0 {
                    MdTag::OrderedList => {
                        ordered = true;
                        break;
                    },
                    MdTag::UnorderedList => {
                        ordered = false;
                        break;
                    },
                    _ => {},
                }
                i = i - 1;
            }
            MdTag::ListItem { ordered }
        },
        MdStart::Emphasis => MdTag::Emphasis,
        MdStart::Strong => MdTag::Strong,
        MdStart::Strikethrough => MdTag::Strikethrough,
        MdStart::Link(url) => match wiki_link_stem(url.as_str()) {
            Some(st) => MdTag::WikiLink(st),
            None => MdTag::ExternalLink(String::from_str(url.as_str())),
        },
        MdStart::Table => MdTag::Table,
        MdStart::TableHead => MdTag::TableHead,
        MdStart::TableRow => MdTag::TableRow,
        MdStart::TableCell => {
            let mut i: usize = 0;
            while i < stack.len()
                invariant
                    *s is TableCell,
                    i <= stack@.len(),
                    open == open_tags(frames_view(stack@)),
                    forall|j: int| 0 <= j < i ==> !(open[j] is TableHead),
                decreases stack@.len() - i,
            {
                let head = match &stack[i].0 {
                    MdTag::TableHead => true,
                    _ => false,
                };
                assert(open[i as int] == tag_view(stack@[i as int].0));
                if head {
                    assert(open[i as int] is TableHead);
                    assert(in_table_head(open));
                    return MdTag::TableHeadCell;
                }
                i = i + 1;
            }
            MdTag::TableBodyCell
        },
        MdStart::Image { url, title } => MdTag::Image { url: String::from_str(url.as_str()), title: String::from_str(title.as_str()) },
        MdStart::Other => MdTag::Root,
    }
}

/// The node for a text event under the open frames: verbatim inside a code
/// block or a wiki link, else text for the segment splitter.
pub fn text_node(t: &String, stack: &Vec<(MdTag, Vec<MdNode>)>) -> (r: MdNode)
    ensures
        node_view(r) == leaf_of(frames_view(stack@), MdEvent::Text(*t)),
{
    let ghost open = open_tags(frames_view(stack@));
    let mut i: usize = 0;
    while i < stack.len()
        invariant
            i <= stack@.len(),
            open == open_tags(frames_view(stack@)),
            forall|j: int| 0 <= j < i ==> !(open[j] is CodeBlock || open[j] is WikiLink),
        decreases stack@.len() - i,
    {
        let verbatim = match &stack[i].0 {
            MdTag::CodeBlock(_) => true,
            MdTag::WikiLink(_) => true,
            _ => false,
        };
        assert(open[i as int] == tag_view(stack@[i as int].0));
        if verbatim {
            assert(open[i as int] is CodeBlock || open[i as int] is WikiLink);
            assert(in_verbatim(open));
            return MdNode::Plain(String::from_str(t.as_str()));
        }
        i = i + 1;
    }
    MdNode::Text(String::from_str(t.as_str()))
}

/// Appends `node` to the children of the innermost open frame.
fn attach(stack: &mut Vec<(MdTag, Vec<MdNode>)>, node: MdNode)
    requires
        old(stack)@.len() > 0,
    ensures
        final(stack)@.len() == old(stack)@.len(),
        frames_view(final(stack)@) == attach_v(frames_view(old(stack)@), node_view(node)),
{
    let ghost st0 = frames_view(stack@);
    let ghost nv = node_view(node);
    match stack.pop() {
        Some((tag, mut children)) => {
            let ghost old_ch = children;
            children.push(node);
            proof {
                assert(old_ch@.subrange(0, old_ch@.len() as int) =~= children@.subrange(0, old_ch@.len() as int));
                lemma_children_view_prefix(old_ch, children, old_ch@.len() as int);
                assert(children[children@.len() - 1] == node);
                assert(children_view(children, children@.len() as int) == children_view(old_ch, old_ch@.len() as int).push(nv));
            }
            stack.push((tag, children));
            assert(frames_view(stack@) =~= attach_v(st0, nv));
        },
        None => {},
    }
}

/// Closes the innermost open frame into an element of its parent.
fn close(stack: &mut Vec<(MdTag, Vec<MdNode>)>)
    requires
        old(stack)@.len() > 1,
    ensures
        final(stack)@.len() == old(stack)@.len() - 1,
        frames_view(final(stack)@) == close_v(frames_view(old(stack)@)),
{
    let ghost st0 = frames_view(stack@);
    match stack.pop() {
        Some((tag, children)) => {
            assert(frames_view(stack@) =~= st0.drop_last());
            attach(stack, MdNode::Element(tag, children));
        },
        None => {},
    }
}

/// Builds the tree of a markup event stream with a stack of open frames:
/// a start event opens a frame of the kind `start_tag` gives, an end event
/// closes the innermost one into its parent, other events become leaves of
/// the innermost frame. Frames still open at the end are closed; an end event
/// with no open frame but the root is ignored.
pub fn build_tree(events: &Vec<MdEvent>) -> (r: MdNode)
    ensures
        node_view(r) == tree_of(events@),
        r matches MdNode::Element(MdTag::Root, _),
{
    let mut stack: Vec<(MdTag, Vec<MdNode>)> = Vec::new();
    stack.push((MdTag::Root, Vec::new()));
    assert(frames_view(stack@) =~= frames_after(events@.subrange(0, 0)));
    let mut i: usize = 0;
    while i < events.len()
        invariant
            i <= events@.len(),
            stack@.len() > 0,
            tag_view(stack@[0].0) == TagV::Root,
            frames_view(stack@) == frames_after(events@.subrange(0, i as int)),
        decreases events@.len() - i,
    {
        assert(events@.subrange(0, i + 1).drop_last() =~= events@.subrange(0, i as int));
        let ghost st = frames_view(stack@);
        match &events[i] {
            MdEvent::Start(s) => {
                let t = start_tag(s, &stack);
                stack.push((t, Vec::new()));
                assert(frames_view(stack@) =~= st.push((start_view(*s, open_tags(st)), seq![])));
            },
            MdEvent::End => {
                if stack.len() > 1 {
                    close(&mut stack);
                }
            },
            MdEvent::Text(t) => {
                let node = text_node(t, &stack);
                attach(&mut stack, node);
            },
            MdEvent::Code(c) => attach(&mut stack, MdNode::InlineCode(String::from_str(c.as_str()))),
            MdEvent::Html(h) => attach(&mut stack, MdNode::RawHtml(String::from_str(h.as_str()))),
            MdEvent::SoftBreak => attach(&mut stack, MdNode::SoftBreak),
            MdEvent::HardBreak => attach(&mut stack, MdNode::HardBreak),
            MdEvent::Rule => attach(&mut stack, MdNode::Rule),
        }
        i = i + 1;
        proof { lemma_root_frame(events@.subrange(0, i as int)); }
        assert(frames_view(stack@)[0].0 == tag_view(stack@[0].0));
    }
    assert(events@.subrange(0, events@.len() as int) =~= events@);
    while stack.len() > 1
        invariant
            stack@.len() > 0,
            tag_view(stack@[0].0) == TagV::Root,
            finish_v(frames_view(stack@)) == finish_v(frames_after(events@)),
        decreases stack@.len(),
    {
        let ghost st = frames_view(stack@);
        close(&mut stack);
        proof { lemma_close_root(st); }
        assert(frames_view(stack@)[0].0 == tag_view(stack@[0].0));
    }
    let ghost fin = frames_view(stack@);
    assert(finish_v(fin) == fin);
    match stack.pop() {
        Some((tag, children)) => {
            assert(fin[0] == frame_view((tag, children)));
            let r = MdNode::Element(tag, children);
            assert(tag is Root);
            r
        },
        None => MdNode::Element(MdTag::Root, Vec::new()),
    }
}


/// The plain text of a node: its text, its children's text in order, a space
/// for a line break.
pub open spec fn node_text(n: MdNode) -> Seq<char>
    decreases n, 0int,
{
    match n {
        MdNode::Element(_, ch) => children_text(ch, ch@.len() as int),
        MdNode::Text(t) => t@,
        MdNode::Plain(t) => t@,
        MdNode::InlineCode(t) => t@,
        MdNode::SoftBreak => seq![' '],
        MdNode::HardBreak => seq![' '],
        _ => seq![],
    }
}

/// The plain text of the first `i` nodes of `ch`.
pub open spec fn children_text(ch: Vec<MdNode>, i: int) -> Seq<char>
    decreases ch, i,
{
    if i <= 0 || i > ch@.len() {
        seq![]
    } else {
        children_text(ch, i - 1) + node_text(ch[i - 1])
    }
}

fn push_text(v: &mut Vec<char>, s: &String)
    ensures
        final(v)@ == old(v)@ + s@,
{
    let c = chars_of(s.as_str());
    let mut i: usize = 0;
    while i < c.len()
        invariant
            i <= c@.len(),
            c@ == s@,
            v@ == old(v)@ + c@.subrange(0, i as int),
        decreases c@.len() - i,
    {
        v.push(c[i]);
        i = i + 1;
        assert(v@ =~= old(v)@ + c@.subrange(0, i as int));
    }
    assert(c@.subrange(0, c@.len() as int) =~= c@);
}

fn append_text(ns: &Vec<MdNode>, out: &mut Vec<char>)
    ensures
        final(out)@ == old(out)@ + children_text(*ns, ns@.len() as int),
    decreases ns,
{
    let mut i: usize = 0;
    while i < ns.len()
        invariant
            i <= ns@.len(),
            out@ == old(out)@ + children_text(*ns, i as int),
        decreases ns@.len() - i,
    {
        let ghost before = out@;
        match &ns[i] {
            MdNode::Element(_, ch) => {
                assert(decreases_to!(*ns => ns[i as int]));
                append_text(ch, out);
            },
            MdNode::Text(t) => push_text(out, t),
            MdNode::Plain(t) => push_text(out, t),
            MdNode::InlineCode(t) => push_text(out, t),
            MdNode::SoftBreak => out.push(' '),
            MdNode::HardBreak => out.push(' '),
            _ => {},
        }
        assert(out@ =~= before + node_text(ns[i as int]));
        i = i + 1;
        assert(out@ =~= old(out)@ + children_text(*ns, i as int));
    }
}

/// The plain text of a list of nodes.
pub fn collect_text(nodes: &Vec<MdNode>) -> (r: String)
    ensures
        r@ == children_text(*nodes, nodes@.len() as int),
{
    let mut out: Vec<char> = Vec::new();
    append_text(nodes, &mut out);
    assert(out@ =~= children_text(*nodes, nodes@.len() as int));
    string_of(&out)
}

/// A heading of a document: its level, its plain text and its anchor.
pub struct Heading {
    pub level: u8,
    pub text: String,
    pub anchor: String,
}

/// The headings of a node in document order, as (level, text, anchor).
pub open spec fn node_headings(n: MdNode) -> Seq<(u8, Seq<char>, Seq<char>)>
    decreases n, 0int,
{
    match n {
        MdNode::Element(MdTag::Heading(l), ch) => seq![(l, children_text(ch, ch@.len() as int), anchor_of(children_text(ch, ch@.len() as int)))],
        MdNode::Element(_, ch) => children_headings(ch, ch@.len() as int),
        _ => seq![],
    }
}

/// The headings of the first `i` nodes of `ch`.
pub open spec fn children_headings(ch: Vec<MdNode>, i: int) -> Seq<(u8, Seq<char>, Seq<char>)>
    decreases ch, i,
{
    if i <= 0 || i > ch@.len() {
        seq![]
    } else {
        children_headings(ch, i - 1) + node_headings(ch[i - 1])
    }
}

pub open spec fn heading_views(h: Seq<Heading>) -> Seq<(u8, Seq<char>, Seq<char>)> {
    h.map_values(|x: Heading| (x.level, x.text@, x.anchor@))
}

fn headings_into(ns: &Vec<MdNode>, out: &mut Vec<Heading>)
    ensures
        heading_views(final(out)@) == heading_views(old(out)@) + children_headings(*ns, ns@.len() as int),
    decreases ns,
{
    let mut i: usize = 0;
    while i < ns.len()
        invariant
            i <= ns@.len(),
            heading_views(out@) == heading_views(old(out)@) + children_headings(*ns, i as int),
        decreases ns@.len() - i,
    {
        let ghost before = heading_views(out@);
        match &ns[i] {
            MdNode::Element(MdTag::Heading(l), ch) => {
                let text = collect_text(ch);
                let anchor = heading_anchor(text.as_str());
                out.push(Heading { level: *l, text, anchor });
            },
            MdNode::Element(_, ch) => {
                assert(decreases_to!(*ns => ns[i as int]));
                headings_into(ch, out);
            },
            _ => {},
        }
        assert(heading_views(out@) =~= before + node_headings(ns[i as int]));
        i = i + 1;
        assert(heading_views(out@) =~= heading_views(old(out)@) + children_headings(*ns, i as int));
    }
}

/// The headings of a tree in document order, each with its plain text and
/// its anchor.
pub fn collect_headings(tree: &MdNode) -> (r: Vec<Heading>)
    ensures
        heading_views(r@) == node_headings(*tree),
{
    let mut out: Vec<Heading> = Vec::new();
    match tree {
        MdNode::Element(MdTag::Heading(l), ch) => {
            let text = collect_text(ch);
            let anchor = heading_anchor(text.as_str());
            out.push(Heading { level: *l, text, anchor });
        },
        MdNode::Element(_, ch) => {
            headings_into(ch, &mut out);
        },
        _ => {},
    }
    assert(heading_views(out@) =~= node_headings(*tree));
    out
}

/// What an event adds to a snippet: its text, or a space for a line break.
pub open spec fn piece(e: MdEvent) -> Seq<char> {
    match e {
        MdEvent::Text(t) => t@,
        MdEvent::Code(t) => t@,
        MdEvent::SoftBreak => seq![' '],
        MdEvent::HardBreak => seq![' '],
        _ => seq![],
    }
}

/// The snippet of a stream of events: the pieces of the events in order,
/// stopping before the first event met once 40 characters are gathered.
pub open spec fn snippet_acc(evs: Seq<MdEvent>) -> Seq<char>
    decreases evs.len(),
{
    if evs.len() == 0 {
        seq![]
    } else {
        let a = snippet_acc(evs.drop_last());
        if a.len() >= 40 {
            a
        } else {
            a + piece(evs.last())
        }
    }
}

/// The snippet of a body, from the markup events of the body.
pub fn snippet_of(events: &Vec<MdEvent>) -> (r: String)
    ensures
        r@ == snippet_acc(events@),
{
    let mut out: Vec<char> = Vec::new();
    let mut i: usize = 0;
    while i < events.len()
        invariant
            i <= events@.len(),
            out@ == snippet_acc(events@.subrange(0, i as int)),
        decreases events@.len() - i,
    {
        assert(events@.subrange(0, i + 1).drop_last() =~= events@.subrange(0, i as int));
        if out.len() < 40 {
            match &events[i] {
                MdEvent::Text(t) => push_text(&mut out, t),
                MdEvent::Code(t) => push_text(&mut out, t),
                MdEvent::SoftBreak => out.push(' '),
                MdEvent::HardBreak => out.push(' '),
                _ => {},
            }
        }
        i = i + 1;
        assert(out@ =~= snippet_acc(events@.subrange(0, i as int)));
    }
    assert(events@.subrange(0, events@.len() as int) =~= events@);
    string_of(&out)
}

/// Short previews of notes.
pub trait NoteExt {
    /// A short preview of the note, made from the markup events of its body.
    fn snippet(&self, body_events: &Vec<MdEvent>) -> (r: String)
        ensures
            r@ == snippet_acc(body_events@),
    ;
}

impl NoteExt for Note {
    fn snippet(&self, body_events: &Vec<MdEvent>) -> String {
        snippet_of(body_events)
    }
}

/// What the navigation beside a note shows: its headings, the notes it links
/// to, the notes that link to it, and its tags.
pub struct NoteNavData {
    pub headings: Vec<Heading>,
    pub outgoing_links: Vec<Note>,
    pub backlinks: Vec<Note>,
    pub tags: Vec<String>,
}

impl NoteNavData {
    /// Whether there is nothing to show.
    pub fn is_empty(&self) -> (r: bool)
        ensures
            r == (self.headings@.len() == 0 && self.outgoing_links@.len() == 0 && self.backlinks@.len() == 0
                && self.tags@.len() == 0),
    {
        self.headings.len() == 0 && self.outgoing_links.len() == 0 && self.backlinks.len() == 0
            && self.tags.len() == 0
    }
}

} // verus!
