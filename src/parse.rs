//! Parsing of one note's text: preamble, title, body, lead, tags and links.

use vstd::prelude::*;

use crate::dates::created_of;
use crate::note::Note;
use crate::text::{
    chars_of, find, find_from, is_space, next_char, occurs, occurs_at, skip, skip_char,
    lower_of, same_lowercase, slice_of, split_words, string_of, string_views, substring, trim,
    trim_range, views, words, is_ascii_space, ascii_space, is_ascii_alnum, alnum, is_alphanumeric,
    split_lines, lines, trim_start,
};

verus! {

/// The opening delimiter line of a preamble, with a line feed.
pub open spec fn open_lf() -> Seq<char> {
    seq!['-', '-', '-', '\n']
}

/// The opening delimiter line of a preamble, with a carriage return and line feed.
pub open spec fn open_crlf() -> Seq<char> {
    seq!['-', '-', '-', '\r', '\n']
}

/// A closing delimiter line ended by a line feed.
pub open spec fn close_lf() -> Seq<char> {
    seq!['\n', '-', '-', '-', '\n']
}

/// A closing delimiter line ended by a carriage return and line feed.
pub open spec fn close_crlf() -> Seq<char> {
    seq!['\n', '-', '-', '-', '\r', '\n']
}

/// A closing delimiter line at the very end of the text.
pub open spec fn close_eof() -> Seq<char> {
    seq!['\n', '-', '-', '-']
}

/// The length of the opening delimiter that `c` starts with, or 0.
pub open spec fn open_len(c: Seq<char>) -> int {
    if occurs_at(c, 0, open_lf()) {
        4
    } else if occurs_at(c, 0, open_crlf()) {
        5
    } else {
        0
    }
}

/// The length of the closing delimiter that occurs in `c` at `p`, or 0.
pub open spec fn close_len(c: Seq<char>, p: int) -> int {
    if occurs_at(c, p, close_lf()) {
        5
    } else if occurs_at(c, p, close_crlf()) {
        6
    } else if p + 4 == c.len() && occurs_at(c, p, close_eof()) {
        4
    } else {
        0
    }
}

/// The first position at or after `from` where a closing delimiter occurs.
pub open spec fn first_close(c: Seq<char>, from: int) -> Option<int>
    decreases c.len() + 1 - from,
{
    if from < 0 || from > c.len() {
        None
    } else if close_len(c, from) > 0 {
        Some(from)
    } else {
        first_close(c, from + 1)
    }
}

pub proof fn lemma_first_close(c: Seq<char>, from: int)
    requires
        0 <= from,
    ensures
        first_close(c, from) matches Some(p) ==> from <= p && close_len(c, p) > 0,
    decreases c.len() + 1 - from,
{
    if from <= c.len() && close_len(c, from) == 0 {
        lemma_first_close(c, from + 1);
    }
}

/// Where the preamble of `c` lies and where its body starts: the preamble's
/// bounds, if `c` opens with a delimiter line that a later delimiter line
/// closes, and the position of the body (0 when there is no preamble). The
/// closing line is the first line after the opening one that holds only the
/// delimiter; the search starts at the opening line's own line feed, so a
/// closing line right after it closes an empty preamble.
pub open spec fn preamble_bounds(c: Seq<char>) -> (Option<(int, int)>, int) {
    let o = open_len(c);
    if o == 0 {
        (None, 0)
    } else {
        match first_close(c, o - 1) {
            Some(p) => (Some((o, if p < o { o } else { p })), p + close_len(c, p)),
            None => (None, 0),
        }
    }
}

fn close_length(c: &Vec<char>, p: usize) -> (r: usize)
    ensures
        r == close_len(c@, p as int),
{
    let lf: Vec<char> = vec!['\n', '-', '-', '-', '\n'];
    let crlf: Vec<char> = vec!['\n', '-', '-', '-', '\r', '\n'];
    let eof: Vec<char> = vec!['\n', '-', '-', '-'];
    assert(lf@ =~= close_lf());
    assert(crlf@ =~= close_crlf());
    assert(eof@ =~= close_eof());
    if occurs(c, p, &lf) {
        5
    } else if occurs(c, p, &crlf) {
        6
    } else if c.len() >= 4 && p == c.len() - 4 && occurs(c, p, &eof) {
        4
    } else {
        0
    }
}

/// The bounds of the preamble and the start of the body, in characters.
pub fn preamble_split(c: &Vec<char>) -> (r: (Option<(usize, usize)>, usize))
    ensures
        r.1 <= c@.len(),
        r.0 matches Some(b) ==> b.0 <= b.1 <= c@.len(),
        r.0 matches Some(b) ==> preamble_bounds(c@) == (Some((b.0 as int, b.1 as int)), r.1 as int),
        r.0 is None ==> preamble_bounds(c@).0 is None && r.1 == 0 && preamble_bounds(c@).1 == 0,
{
    let olf: Vec<char> = vec!['-', '-', '-', '\n'];
    let ocrlf: Vec<char> = vec!['-', '-', '-', '\r', '\n'];
    assert(olf@ =~= open_lf());
    assert(ocrlf@ =~= open_crlf());
    let o: usize = if occurs(c, 0, &olf) {
        4
    } else if occurs(c, 0, &ocrlf) {
        5
    } else {
        return (None, 0);
    };
    proof { lemma_first_close(c@, o - 1); }
    let mut p: usize = o - 1;
    while p <= c.len()
        invariant
            0 < o <= p + 1,
            o == open_len(c@),
            o <= c@.len(),
            first_close(c@, o - 1) == first_close(c@, p as int),
        decreases c@.len() + 1 - p,
    {
        let n = close_length(c, p);
        if n > 0 {
            assert(p + n <= c@.len());
            assert(first_close(c@, p as int) == Some(p as int));
            let hi: usize = if p < o { o } else { p };
            return (Some((o, hi)), p + n);
        }
        if p == c.len() {
            assert(first_close(c@, p + 1) is None);
            return (None, 0);
        }
        p = p + 1;
    }
    (None, 0)
}

/// Splits `content` into the preamble text, if there is one, and the
/// position (in characters) where the body starts.
pub fn extract_frontmatter(content: &str) -> (r: (Option<String>, usize))
    ensures
        match preamble_bounds(content@) {
            (Some(b), start) => r.0 matches Some(f) && f@ == content@.subrange(b.0, b.1) && r.1 == start,
            (None, start) => r.0 is None && r.1 == 0 && start == 0,
        },
{
    let c = chars_of(content);
    let (b, start) = preamble_split(&c);
    match b {
        Some((lo, hi)) => (Some(substring(&c, lo, hi)), start),
        None => (None, start),
    }
}

/// The heading text of a trimmed line: the line must start with `#`, and
/// what follows the run of `#` must be empty or start with a space.
pub open spec fn heading_of(line: Seq<char>) -> Option<Seq<char>> {
    if line.len() > 0 && line[0] == '#' {
        let rest = line.subrange(skip_char(line, '#', 0), line.len() as int);
        if rest.len() == 0 || rest[0] == ' ' {
            Some(trim(rest))
        } else {
            None
        }
    } else {
        None
    }
}

fn heading_range(s: &Vec<char>, lo: usize, hi: usize) -> (r: Option<(usize, usize)>)
    requires
        lo <= hi <= s@.len(),
    ensures
        match heading_of(s@.subrange(lo as int, hi as int)) {
            Some(h) => r matches Some(b) && lo <= b.0 <= b.1 <= hi && s@.subrange(b.0 as int, b.1 as int) == h,
            None => r is None,
        },
{
    let ghost line = s@.subrange(lo as int, hi as int);
    if lo == hi || s[lo] != '#' {
        return None;
    }
    let line_v = slice_of(s, lo, hi);
    let k = skip(&line_v, '#', 0);
    let ghost rest = line.subrange(k as int, line.len() as int);
    assert(rest =~= s@.subrange(lo + k, hi as int));
    if lo + k == hi || s[lo + k] == ' ' {
        let (a, b) = trim_range(s, lo + k, hi);
        Some((a, b))
    } else {
        None
    }
}

/// The heading text of a trimmed line, if the line is a heading.
pub fn extract_heading(line: &str) -> (r: Option<String>)
    ensures
        match heading_of(line@) {
            Some(h) => r matches Some(t) && t@ == h,
            None => r is None,
        },
{
    let c = chars_of(line);
    assert(c@.subrange(0, c@.len() as int) =~= c@);
    match heading_range(&c, 0, c.len()) {
        Some((a, b)) => Some(substring(&c, a, b)),
        None => None,
    }
}

/// The position of the first character at or after `from` that is not whitespace.
pub open spec fn first_non_space(s: Seq<char>, from: int) -> int
    decreases s.len() - from,
{
    if from < 0 || from >= s.len() || !is_space(s[from]) {
        from
    } else {
        first_non_space(s, from + 1)
    }
}

/// Title and body of the text after the preamble: the preamble's title wins;
/// else a first non-blank line that is a heading gives the title, and the body
/// is what follows that line; else there is no title. The body is trimmed.
pub open spec fn title_and_body(c: Seq<char>, preamble_title: Option<Seq<char>>) -> (Seq<char>, Seq<char>) {
    match preamble_title {
        Some(t) => (t, trim(c)),
        None => {
            let k = first_non_space(c, 0);
            if 0 <= k < c.len() {
                let e = next_char(c, '\n', k);
                match heading_of(trim(c.subrange(k, e))) {
                    Some(h) => (h, trim(c.subrange(e, c.len() as int))),
                    None => (seq![], trim(c)),
                }
            } else {
                (seq![], trim(c))
            }
        },
    }
}

/// A YAML value, as far as a preamble is read: strings, sequences and
/// mappings; anything else is `Other`.
pub enum Yaml {
    Str(String),
    List(Vec<Yaml>),
    Mapping(Vec<(Yaml, Yaml)>),
    Other,
}

/// The YAML document that a text holds, or `None` where it is not YAML
/// (as `serde_yaml::from_str` reads it).
pub uninterp spec fn yaml_doc(text: Seq<char>) -> Option<Yaml>;


/// Relies on `serde_yaml::from_str` into `serde_yaml::Value`: the document
/// read from the text, or the message of the error that reading it met.
#[verifier::external_body]
fn read_yaml(text: &str) -> (r: Result<Yaml, String>)
    ensures
        r is Ok <==> yaml_doc(text@) is Some,
        r matches Ok(y) ==> yaml_doc(text@) == Some(y),
{
    match serde_yaml::from_str::<serde_yaml::Value>(text) {
        Ok(v) => Ok(yaml_of_value(&v)),
        Err(e) => Err(e.to_string()),
    }
}

/// Relies on the variants of `serde_yaml::Value`: moves strings, sequences and
/// mappings over one for one.
#[verifier::external_body]
fn yaml_of_value(v: &serde_yaml::Value) -> Yaml {
    match v {
        serde_yaml::Value::String(s) => Yaml::Str(s.clone()),
        serde_yaml::Value::Sequence(items) => Yaml::List(items.iter().map(yaml_of_value).collect()),
        serde_yaml::Value::Mapping(m) => Yaml::Mapping(m.iter().map(|(k, x)| (yaml_of_value(k), yaml_of_value(x))).collect()),
        _ => Yaml::Other,
    }
}

/// The fields of a preamble that a note uses.
pub struct Frontmatter {
    pub title: Option<String>,
    pub date: Option<String>,
    pub tags: Vec<String>,
    pub aliases: Vec<String>,
}

pub open spec fn opt_view(o: Option<String>) -> Option<Seq<char>> {
    match o {
        Some(s) => Some(s@),
        None => None,
    }
}

impl Frontmatter {
    /// A preamble with no fields.
    pub fn empty() -> (r: Self)
        ensures
            r.title is None,
            r.date is None,
            r.tags@.len() == 0,
            r.aliases@.len() == 0,
    {
        Frontmatter { title: None, date: None, tags: Vec::new(), aliases: Vec::new() }
    }
}

/// Title and body of `content`, the text after the preamble.
pub fn extract_title_and_body(content: &str, frontmatter: &Frontmatter) -> (r: (String, String))
    ensures
        (r.0@, r.1@) == title_and_body(content@, opt_view(frontmatter.title)),
{
    let c = chars_of(content);
    let n = c.len();
    assert(c@.subrange(0, n as int) =~= c@);
    let (ta, tb) = trim_range(&c, 0, n);
    match &frontmatter.title {
        Some(t) => {
            return (t.clone(), substring(&c, ta, tb));
        },
        None => {},
    }
    let mut k: usize = 0;
    while k < n && crate::text::is_whitespace(c[k])
        invariant
            k <= n == c@.len(),
            first_non_space(c@, 0) == first_non_space(c@, k as int),
        decreases n - k,
    {
        k = k + 1;
    }
    if k == n {
        return (String::new(), substring(&c, ta, tb));
    }
    let e = crate::text::find_char(&c, '\n', k);
    let (a, b) = trim_range(&c, k, e);
    match heading_range(&c, a, b) {
        Some((x, y)) => {
            let (ba, bb) = trim_range(&c, e, n);
            (substring(&c, x, y), substring(&c, ba, bb))
        },
        None => (String::new(), substring(&c, ta, tb)),
    }
}

/// The lead of a body: up to its first blank line, trimmed.
pub open spec fn lead_of(b: Seq<char>) -> Seq<char> {
    if b.len() == 0 {
        seq![]
    } else {
        match find_from(b, seq!['\n', '\n'], 0) {
            Some(p) => trim(b.subrange(0, p)),
            None => match find_from(b, seq!['\r', '\n', '\r', '\n'], 0) {
                Some(p) => trim(b.subrange(0, p)),
                None => trim(b),
            },
        }
    }
}

/// The lead of a body: up to its first blank line, trimmed.
pub fn extract_lead(body: &str) -> (r: String)
    ensures
        r@ == lead_of(body@),
{
    let c = chars_of(body);
    let n = c.len();
    if n == 0 {
        return String::new();
    }
    let lf: Vec<char> = vec!['\n', '\n'];
    let crlf: Vec<char> = vec!['\r', '\n', '\r', '\n'];
    assert(lf@ =~= seq!['\n', '\n']);
    assert(crlf@ =~= seq!['\r', '\n', '\r', '\n']);
    let end: usize = match find(&c, &lf, 0) {
        Some(p) => p,
        None => match find(&c, &crlf, 0) {
            Some(p) => p,
            None => n,
        },
    };
    assert(c@.subrange(0, n as int) =~= c@);
    let (a, b) = trim_range(&c, 0, end);
    substring(&c, a, b)
}

/// The strings among a sequence of YAML values, in order.
pub open spec fn strings_of(items: Seq<Yaml>) -> Seq<Seq<char>>
    decreases items.len(),
{
    if items.len() == 0 {
        seq![]
    } else {
        let rest = strings_of(items.drop_last());
        match items.last() {
            Yaml::Str(s) => rest.push(s@),
            _ => rest,
        }
    }
}

/// The raw tags that a preamble value gives: the strings of a sequence, or
/// the whitespace-separated words of a string.
pub open spec fn tag_words(v: Yaml) -> Seq<Seq<char>> {
    match v {
        Yaml::List(items) => strings_of(items@),
        Yaml::Str(s) => words(s@),
        _ => seq![],
    }
}

/// A raw tag without its leading `#` characters, trimmed.
pub open spec fn normalize_tag(raw: Seq<char>) -> Seq<char> {
    trim(raw.subrange(skip_char(raw, '#', 0), raw.len() as int))
}

/// Whether `tags` holds a tag equal to `t` once both are lowercased.
pub open spec fn has_tag_ci(tags: Seq<Seq<char>>, t: Seq<char>) -> bool {
    exists|i: int| 0 <= i < tags.len() && lower_of(tags[i]) == lower_of(t)
}

/// `tags` with `t` appended, unless `t` is empty or already there in some case.
pub open spec fn push_tag(tags: Seq<Seq<char>>, t: Seq<char>) -> Seq<Seq<char>> {
    if t.len() == 0 || has_tag_ci(tags, t) {
        tags
    } else {
        tags.push(t)
    }
}

/// `tags` with each of `ts` pushed in turn.
pub open spec fn push_tags(tags: Seq<Seq<char>>, ts: Seq<Seq<char>>) -> Seq<Seq<char>>
    decreases ts.len(),
{
    if ts.len() == 0 {
        tags
    } else {
        push_tag(push_tags(tags, ts.drop_last()), ts.last())
    }
}

/// `tags` with each raw tag of `raws` normalized and pushed in turn.
pub open spec fn add_tags(tags: Seq<Seq<char>>, raws: Seq<Seq<char>>) -> Seq<Seq<char>>
    decreases raws.len(),
{
    if raws.len() == 0 {
        tags
    } else {
        push_tag(add_tags(tags, raws.drop_last()), normalize_tag(raws.last()))
    }
}

/// No two tags are equal once lowercased.
pub open spec fn unique_ci(tags: Seq<Seq<char>>) -> bool {
    forall|i: int, j: int|
        0 <= i < tags.len() && 0 <= j < tags.len() && i != j ==> lower_of(tags[i]) != lower_of(tags[j])
}

pub proof fn lemma_push_tag_unique(tags: Seq<Seq<char>>, t: Seq<char>)
    requires
        unique_ci(tags),
    ensures
        unique_ci(push_tag(tags, t)),
{
}

pub proof fn lemma_push_tags_unique(tags: Seq<Seq<char>>, ts: Seq<Seq<char>>)
    requires
        unique_ci(tags),
    ensures
        unique_ci(push_tags(tags, ts)),
    decreases ts.len(),
{
    if ts.len() > 0 {
        lemma_push_tags_unique(tags, ts.drop_last());
        lemma_push_tag_unique(push_tags(tags, ts.drop_last()), ts.last());
    }
}

pub proof fn lemma_add_tags_unique(tags: Seq<Seq<char>>, raws: Seq<Seq<char>>)
    requires
        unique_ci(tags),
    ensures
        unique_ci(add_tags(tags, raws)),
    decreases raws.len(),
{
    if raws.len() > 0 {
        lemma_add_tags_unique(tags, raws.drop_last());
        lemma_push_tag_unique(add_tags(tags, raws.drop_last()), normalize_tag(raws.last()));
    }
}

/// Appends `t` to `tags` unless it is empty or already there in some case.
pub fn push_unique(t: String, tags: &mut Vec<String>)
    ensures
        string_views(final(tags)@) == push_tag(string_views(old(tags)@), t@),
{
    let ghost old_v = string_views(tags@);
    if t.as_str().is_empty() {
        return;
    }
    let mut i: usize = 0;
    while i < tags.len()
        invariant
            i <= tags@.len(),
            string_views(tags@) == old_v,
            forall|j: int| 0 <= j < i ==> lower_of(old_v[j]) != lower_of(t@),
        decreases tags@.len() - i,
    {
        if same_lowercase(tags[i].as_str(), t.as_str()) {
            assert(lower_of(old_v[i as int]) == lower_of(t@));
            return;
        }
        i = i + 1;
    }
    tags.push(t);
    assert(string_views(tags@) =~= old_v.push(t@));
}

/// Normalizes a raw tag (drops leading `#`, trims) and appends it to `tags`
/// unless it is empty or already there in some case.
pub fn add_tag(raw: &str, tags: &mut Vec<String>)
    ensures
        string_views(final(tags)@) == push_tag(string_views(old(tags)@), normalize_tag(raw@)),
{
    let c = chars_of(raw);
    let k = skip(&c, '#', 0);
    let (a, b) = trim_range(&c, k, c.len());
    push_unique(substring(&c, a, b), tags);
}

/// Adds the tags that a preamble value gives to `tags`.
pub fn collect_tags(value: &Yaml, tags: &mut Vec<String>)
    ensures
        string_views(final(tags)@) == add_tags(string_views(old(tags)@), tag_words(*value)),
{
    let ghost start = string_views(tags@);
    match value {
        Yaml::List(items) => {
            let mut i: usize = 0;
            while i < items.len()
                invariant
                    i <= items@.len(),
                    string_views(tags@) == add_tags(start, strings_of(items@.subrange(0, i as int))),
                decreases items@.len() - i,
            {
                let ghost pre = items@.subrange(0, i as int);
                assert(items@.subrange(0, i + 1).drop_last() =~= pre);
                match &items[i] {
                    Yaml::Str(s) => {
                        add_tag(s.as_str(), tags);
                        assert(strings_of(items@.subrange(0, i + 1)).drop_last() =~= strings_of(pre));
                    },
                    _ => {},
                }
                i = i + 1;
            }
            assert(items@.subrange(0, items@.len() as int) =~= items@);
        },
        Yaml::Str(s) => {
            let c = chars_of(s.as_str());
            let ws = split_words(&c);
            let mut i: usize = 0;
            while i < ws.len()
                invariant
                    i <= ws@.len(),
                    views(ws@) == words(s@),
                    string_views(tags@) == add_tags(start, views(ws@).subrange(0, i as int)),
                decreases ws@.len() - i,
            {
                assert(views(ws@).subrange(0, i + 1).drop_last() =~= views(ws@).subrange(0, i as int));
                let w = string_of(&ws[i]);
                add_tag(w.as_str(), tags);
                i = i + 1;
            }
            assert(views(ws@).subrange(0, ws@.len() as int) =~= views(ws@));
        },
        _ => {},
    }
}

/// The value of the last entry of a mapping whose key is a string that
/// lowercases to `key`.
pub open spec fn field(m: Seq<(Yaml, Yaml)>, key: Seq<char>) -> Option<Yaml>
    decreases m.len(),
{
    if m.len() == 0 {
        None
    } else {
        match m.last().0 {
            Yaml::Str(k) => if lower_of(k@) == key {
                Some(m.last().1)
            } else {
                field(m.drop_last(), key)
            },
            _ => field(m.drop_last(), key),
        }
    }
}

fn lookup<'a>(m: &'a Vec<(Yaml, Yaml)>, key: &Vec<char>) -> (r: Option<&'a Yaml>)
    ensures
        r matches Some(v) ==> field(m@, key@) == Some(*v),
        r is None ==> field(m@, key@) is None,
{
    let mut i: usize = m.len();
    assert(m@.subrange(0, i as int) =~= m@);
    while i > 0
        invariant
            i <= m@.len(),
            field(m@, key@) == field(m@.subrange(0, i as int), key@),
        decreases i,
    {
        let ghost pre = m@.subrange(0, i as int);
        assert(pre.drop_last() =~= m@.subrange(0, i - 1));
        match &m[i - 1].0 {
            Yaml::Str(k) => {
                let lk = crate::text::lowercase(k.as_str());
                let lc = chars_of(lk.as_str());
                if crate::text::same_chars(&lc, key) {
                    return Some(&m[i - 1].1);
                }
            },
            _ => {},
        }
        i = i - 1;
    }
    None
}

pub open spec fn tags_key() -> Seq<char> {
    seq!['t', 'a', 'g', 's']
}

pub open spec fn tag_key() -> Seq<char> {
    seq!['t', 'a', 'g']
}

pub open spec fn keywords_key() -> Seq<char> {
    seq!['k', 'e', 'y', 'w', 'o', 'r', 'd', 's']
}

pub open spec fn keyword_key() -> Seq<char> {
    seq!['k', 'e', 'y', 'w', 'o', 'r', 'd']
}

pub open spec fn title_key() -> Seq<char> {
    seq!['t', 'i', 't', 'l', 'e']
}

pub open spec fn date_key() -> Seq<char> {
    seq!['d', 'a', 't', 'e']
}

pub open spec fn aliases_key() -> Seq<char> {
    seq!['a', 'l', 'i', 'a', 's', 'e', 's']
}

pub open spec fn field_words(m: Seq<(Yaml, Yaml)>, key: Seq<char>) -> Seq<Seq<char>> {
    match field(m, key) {
        Some(v) => tag_words(v),
        None => seq![],
    }
}

/// The tags of a preamble mapping: those of `tags`, `tag`, `keywords` and
/// `keyword` in that order, normalized, without case-insensitive repeats.
pub open spec fn preamble_tags(m: Seq<(Yaml, Yaml)>) -> Seq<Seq<char>> {
    add_tags(
        add_tags(
            add_tags(add_tags(seq![], field_words(m, tags_key())), field_words(m, tag_key())),
            field_words(m, keywords_key()),
        ),
        field_words(m, keyword_key()),
    )
}

/// The string held by a field, if it holds one.
pub open spec fn string_field(m: Seq<(Yaml, Yaml)>, key: Seq<char>) -> Option<Seq<char>> {
    match field(m, key) {
        Some(Yaml::Str(s)) => Some(s@),
        _ => None,
    }
}

/// A field read as a list of strings: the strings of a sequence, or a single string.
pub open spec fn string_list(v: Option<Yaml>) -> Seq<Seq<char>> {
    match v {
        Some(Yaml::List(items)) => strings_of(items@),
        Some(Yaml::Str(s)) => seq![s@],
        _ => seq![],
    }
}

/// Adds the tags of a preamble mapping to `tags`, key by key.
pub fn extract_tags(m: &Vec<(Yaml, Yaml)>) -> (r: Vec<String>)
    ensures
        string_views(r@) == preamble_tags(m@),
{
    let mut tags: Vec<String> = Vec::new();
    assert(string_views(tags@) =~= seq![]);
    let keys: Vec<Vec<char>> = vec![
        vec!['t', 'a', 'g', 's'],
        vec!['t', 'a', 'g'],
        vec!['k', 'e', 'y', 'w', 'o', 'r', 'd', 's'],
        vec!['k', 'e', 'y', 'w', 'o', 'r', 'd'],
    ];
    assert(keys[0]@ =~= tags_key());
    assert(keys[1]@ =~= tag_key());
    assert(keys[2]@ =~= keywords_key());
    assert(keys[3]@ =~= keyword_key());
    let ghost steps = seq![seq![], field_words(m@, tags_key()), field_words(m@, tag_key()), field_words(m@, keywords_key()), field_words(m@, keyword_key())];
    let mut i: usize = 0;
    while i < 4
        invariant
            i <= 4,
            keys@.len() == 4,
            keys[0]@ == tags_key(),
            keys[1]@ == tag_key(),
            keys[2]@ == keywords_key(),
            keys[3]@ == keyword_key(),
            i == 0 ==> string_views(tags@) == Seq::<Seq<char>>::empty(),
            i == 1 ==> string_views(tags@) == add_tags(seq![], field_words(m@, tags_key())),
            i == 2 ==> string_views(tags@) == add_tags(add_tags(seq![], field_words(m@, tags_key())), field_words(m@, tag_key())),
            i == 3 ==> string_views(tags@) == add_tags(add_tags(add_tags(seq![], field_words(m@, tags_key())), field_words(m@, tag_key())), field_words(m@, keywords_key())),
            i == 4 ==> string_views(tags@) == preamble_tags(m@),
        decreases 4 - i,
    {
        match lookup(m, &keys[i]) {
            Some(v) => collect_tags(v, &mut tags),
            None => {
                assert(add_tags(string_views(tags@), seq![]) == string_views(tags@));
            },
        }
        i = i + 1;
    }
    tags
}

/// A field read as a list of strings.
pub fn extract_string_list(value: Option<&Yaml>) -> (r: Vec<String>)
    ensures
        string_views(r@) == string_list(
            match value {
                Some(v) => Some(*v),
                None => None,
            },
        ),
{
    let mut out: Vec<String> = Vec::new();
    match value {
        Some(Yaml::List(items)) => {
            let mut i: usize = 0;
            while i < items.len()
                invariant
                    i <= items@.len(),
                    string_views(out@) == strings_of(items@.subrange(0, i as int)),
                decreases items@.len() - i,
            {
                let ghost pre = items@.subrange(0, i as int);
                let ghost old_out = out@;
                assert(items@.subrange(0, i + 1).drop_last() =~= pre);
                match &items[i] {
                    Yaml::Str(s) => {
                        out.push(s.clone());
                        assert(string_views(out@) =~= string_views(old_out).push(s@));
                    },
                    _ => {},
                }
                i = i + 1;
            }
            assert(items@.subrange(0, items@.len() as int) =~= items@);
        },
        Some(Yaml::Str(s)) => {
            out.push(s.clone());
            assert(string_views(out@) =~= seq![s@]);
        },
        _ => {
            assert(string_views(out@) =~= seq![]);
        },
    }
    out
}

pub open spec fn mapping_of(doc: Yaml) -> Seq<(Yaml, Yaml)> {
    match doc {
        Yaml::Mapping(m) => m@,
        _ => seq![],
    }
}

/// Reads a preamble: its `title` and `date` strings, its tags and its aliases.
/// Keys match case-insensitively; a document that is not a mapping gives none.
pub fn parse_yaml(yaml_str: &str, file_path: &str) -> (r: Result<Frontmatter, crate::error::Error>)
    ensures
        yaml_doc(yaml_str@) is None ==> (r matches Err(e) && e.is_yaml_for(file_path@)),
        yaml_doc(yaml_str@) matches Some(doc) ==> (r matches Ok(f) && {
            let m = mapping_of(doc);
            &&& opt_view(f.title) == string_field(m, title_key())
            &&& opt_view(f.date) == string_field(m, date_key())
            &&& string_views(f.tags@) == preamble_tags(m)
            &&& string_views(f.aliases@) == string_list(field(m, aliases_key()))
        }),
{
    let doc = match read_yaml(yaml_str) {
        Ok(d) => d,
        Err(message) => {
            return Err(crate::error::Error::Yaml { path: String::from_str(file_path), message });
        },
    };
    let empty: Vec<(Yaml, Yaml)> = Vec::new();
    let m: &Vec<(Yaml, Yaml)> = match &doc {
        Yaml::Mapping(m) => m,
        _ => &empty,
    };
    assert(m@ == mapping_of(doc));
    let title_k: Vec<char> = vec!['t', 'i', 't', 'l', 'e'];
    let date_k: Vec<char> = vec!['d', 'a', 't', 'e'];
    let aliases_k: Vec<char> = vec!['a', 'l', 'i', 'a', 's', 'e', 's'];
    assert(title_k@ =~= title_key());
    assert(date_k@ =~= date_key());
    assert(aliases_k@ =~= aliases_key());
    let title = match lookup(m, &title_k) {
        Some(Yaml::Str(s)) => Some(s.clone()),
        _ => None,
    };
    let date = match lookup(m, &date_k) {
        Some(Yaml::Str(s)) => Some(s.clone()),
        _ => None,
    };
    let tags = extract_tags(m);
    let aliases = extract_string_list(lookup(m, &aliases_k));
    Ok(Frontmatter { title, date, tags, aliases })
}

/// The characters a tag name is made of: ASCII letters and digits, `_` and `-`.
pub open spec fn is_tag_char(c: char) -> bool {
    is_ascii_alnum(c) || c == '_' || c == '-'
}

pub fn tag_char(c: char) -> (r: bool)
    ensures
        r == is_tag_char(c),
{
    ('a' <= c && c <= 'z') || ('A' <= c && c <= 'Z') || ('0' <= c && c <= '9') || c == '_' || c == '-'
}

/// The end of the run of tag characters that starts at `from`.
pub open spec fn tag_run_end(l: Seq<char>, from: int) -> int
    decreases l.len() - from,
{
    if from < 0 || from >= l.len() || !is_tag_char(l[from]) {
        from
    } else {
        tag_run_end(l, from + 1)
    }
}

pub proof fn lemma_tag_run_end(l: Seq<char>, from: int)
    requires
        0 <= from <= l.len(),
    ensures
        from <= tag_run_end(l, from) <= l.len(),
        forall|k: int| from <= k < tag_run_end(l, from) ==> is_tag_char(l[k]),
        tag_run_end(l, from) < l.len() ==> !is_tag_char(l[tag_run_end(l, from)]),
    decreases l.len() - from,
{
    if from < l.len() && is_tag_char(l[from]) {
        lemma_tag_run_end(l, from + 1);
    }
}

pub(crate) fn tag_run(l: &Vec<char>, from: usize) -> (r: usize)
    requires
        from <= l@.len(),
    ensures
        r == tag_run_end(l@, from as int),
        from <= r <= l@.len(),
{
    proof { lemma_tag_run_end(l@, from as int); }
    let mut j: usize = from;
    while j < l.len() && tag_char(l[j])
        invariant
            from <= j <= l@.len(),
            tag_run_end(l@, from as int) == tag_run_end(l@, j as int),
        decreases l@.len() - j,
    {
        j = j + 1;
    }
    j
}

/// Whether position `i` of `l` starts a line or follows ASCII whitespace.
pub open spec fn at_word_start(l: Seq<char>, i: int) -> bool {
    i == 0 || (0 < i <= l.len() && is_ascii_space(l[i - 1]))
}

/// The colon tags of a line from position `i` on. Outside a chain, a `:` that
/// starts the line or follows whitespace opens one; inside a chain, each name
/// closed by a `:` is a tag, and the chain goes on while another name abuts.
pub open spec fn colon_scan(l: Seq<char>, i: int, chain: bool) -> Seq<Seq<char>>
    decreases 2 * (l.len() - i) + (if chain { 2int } else { 1int }),
{
    if i < 0 || i > l.len() {
        seq![]
    } else if !chain {
        if i >= l.len() {
            seq![]
        } else if l[i] == ':' && at_word_start(l, i) {
            colon_scan(l, i + 1, true)
        } else {
            colon_scan(l, i + 1, false)
        }
    } else {
        let j = tag_run_end(l, i);
        if !(i <= j <= l.len()) {
            seq![]
        } else if j == i {
            colon_scan(l, i, false)
        } else if j >= l.len() || l[j] != ':' {
            colon_scan(l, j, false)
        } else if j + 1 >= l.len() || !is_tag_char(l[j + 1]) {
            seq![l.subrange(i, j)] + colon_scan(l, j + 1, false)
        } else {
            seq![l.subrange(i, j)] + colon_scan(l, j + 1, true)
        }
    }
}

pub open spec fn colon_tags(l: Seq<char>) -> Seq<Seq<char>> {
    colon_scan(l, 0, false)
}

/// Appends the `:colon:separated:tags:` of a line to `tags`.
pub fn extract_colon_tags(line: &str, tags: &mut Vec<String>)
    ensures
        string_views(final(tags)@) == string_views(old(tags)@) + colon_tags(line@),
{
    let l = chars_of(line);
    let n = l.len();
    let ghost start = string_views(tags@);
    let mut i: usize = 0;
    let mut chain: bool = false;
    while i < n || chain
        invariant
            i <= n == l@.len(),
            string_views(tags@) + colon_scan(l@, i as int, chain) == start + colon_tags(l@),
        decreases 2 * (n - i) + (if chain { 2int } else { 1int }),
    {
        if !chain {
            if l[i] == ':' && (i == 0 || ascii_space(l[i - 1])) {
                chain = true;
            }
            i = i + 1;
        } else {
            let j = tag_run(&l, i);
            if j == i {
                chain = false;
            } else if j >= n || l[j] != ':' {
                chain = false;
                i = j;
            } else {
                let ghost old_t = string_views(tags@);
                tags.push(substring(&l, i, j));
                assert(string_views(tags@) =~= old_t + seq![l@.subrange(i as int, j as int)]);
                i = j + 1;
                chain = i < n && tag_char(l[i]);
            }
        }
    }
    assert(colon_scan(l@, i as int, chain) =~= seq![]);
    assert(string_views(tags@) + seq![] =~= string_views(tags@));
}

/// The hashtags of a line from position `i` on: a `#` that starts the line or
/// follows whitespace, then one or more tag characters.
pub open spec fn hash_scan(l: Seq<char>, i: int) -> Seq<Seq<char>>
    decreases l.len() - i,
{
    if i < 0 || i >= l.len() {
        seq![]
    } else if l[i] == '#' && at_word_start(l, i) {
        let j = tag_run_end(l, i + 1);
        if i + 1 < j <= l.len() {
            seq![l.subrange(i + 1, j)] + hash_scan(l, j)
        } else {
            hash_scan(l, i + 1)
        }
    } else {
        hash_scan(l, i + 1)
    }
}

pub open spec fn hashtags(l: Seq<char>) -> Seq<Seq<char>> {
    hash_scan(l, 0)
}

/// Appends the `#hashtags` of a line to `tags`.
pub fn extract_hashtags(line: &str, tags: &mut Vec<String>)
    ensures
        string_views(final(tags)@) == string_views(old(tags)@) + hashtags(line@),
{
    let l = chars_of(line);
    let n = l.len();
    let ghost start = string_views(tags@);
    let mut i: usize = 0;
    while i < n
        invariant
            i <= n == l@.len(),
            string_views(tags@) + hash_scan(l@, i as int) == start + hashtags(l@),
        decreases n - i,
    {
        if l[i] == '#' && (i == 0 || ascii_space(l[i - 1])) {
            let j = tag_run(&l, i + 1);
            if j > i + 1 {
                let ghost old_t = string_views(tags@);
                tags.push(substring(&l, i + 1, j));
                assert(string_views(tags@) =~= old_t + seq![l@.subrange(i + 1, j as int)]);
                i = j;
            } else {
                i = i + 1;
            }
        } else {
            i = i + 1;
        }
    }
    assert(hash_scan(l@, i as int) =~= seq![]);
    assert(string_views(tags@) + seq![] =~= string_views(tags@));
}

/// Whether a line toggles a fenced code block: it starts with three backticks
/// once leading whitespace is dropped.
pub open spec fn is_fence(l: Seq<char>) -> bool {
    occurs_at(trim_start(l), 0, seq!['`', '`', '`'])
}

fn fence(l: &Vec<char>) -> (r: bool)
    ensures
        r == is_fence(l@),
{
    let (a, _b) = trim_range(l, 0, l.len());
    assert(l@.subrange(0, l@.len() as int) =~= l@);
    let ticks: Vec<char> = vec!['`', '`', '`'];
    assert(ticks@ =~= seq!['`', '`', '`']);
    let rest = slice_of(l, a, l.len());
    occurs(&rest, 0, &ticks)
}

/// The inline tags of the lines `ls`, skipping fenced code blocks, and whether
/// a code block is still open after them.
pub open spec fn inline_scan(ls: Seq<Seq<char>>) -> (Seq<Seq<char>>, bool)
    decreases ls.len(),
{
    if ls.len() == 0 {
        (seq![], false)
    } else {
        let prev = inline_scan(ls.drop_last());
        let l = ls.last();
        if is_fence(l) {
            (prev.0, !prev.1)
        } else if prev.1 {
            prev
        } else {
            (prev.0 + colon_tags(l) + hashtags(l), false)
        }
    }
}

/// The inline tags of a text: per line outside fenced code blocks, its colon
/// tags and then its hashtags.
pub open spec fn inline_tags(c: Seq<char>) -> Seq<Seq<char>> {
    inline_scan(lines(c)).0
}

/// The inline tags of a text, in order of occurrence, repeats kept.
pub fn extract_inline_tags(content: &str) -> (r: Vec<String>)
    ensures
        string_views(r@) == inline_tags(content@),
{
    let c = chars_of(content);
    let ls = split_lines(&c);
    let mut tags: Vec<String> = Vec::new();
    let mut in_code: bool = false;
    let mut i: usize = 0;
    assert(views(ls@).subrange(0, 0) =~= seq![]);
    while i < ls.len()
        invariant
            i <= ls@.len(),
            views(ls@) == lines(c@),
            (string_views(tags@), in_code) == inline_scan(views(ls@).subrange(0, i as int)),
        decreases ls@.len() - i,
    {
        assert(views(ls@).subrange(0, i + 1).drop_last() =~= views(ls@).subrange(0, i as int));
        let line = &ls[i];
        if fence(line) {
            in_code = !in_code;
        } else if !in_code {
            let s = string_of(line);
            extract_colon_tags(s.as_str(), &mut tags);
            extract_hashtags(s.as_str(), &mut tags);
        }
        i = i + 1;
    }
    assert(views(ls@).subrange(0, ls@.len() as int) =~= views(ls@));
    tags
}

/// A link target without its leading `./` and `../` segments.
pub open spec fn strip_relative(u: Seq<char>) -> Seq<char>
    decreases u.len(),
{
    if occurs_at(u, 0, seq!['.', '.', '/']) {
        strip_relative(u.subrange(3, u.len() as int))
    } else if occurs_at(u, 0, seq!['.', '/']) {
        strip_relative(u.subrange(2, u.len() as int))
    } else {
        u
    }
}

/// The characters a note stem in a link is made of.
pub open spec fn is_stem_char(c: char) -> bool {
    alnum(c) || c == '_'
}

/// The stem that a link target refers to, if it is an internal link: after
/// leading `./` and `../` segments, one or more alphanumeric or `_` characters.
pub open spec fn wiki_stem(u: Seq<char>) -> Option<Seq<char>> {
    let r = strip_relative(u);
    if r.len() > 0 && forall|k: int| 0 <= k < r.len() ==> is_stem_char(r[k]) {
        Some(r)
    } else {
        None
    }
}

/// The stem a link target refers to, if it is an internal link.
pub fn wiki_link_stem(url: &str) -> (r: Option<String>)
    ensures
        opt_view(r) == wiki_stem(url@),
{
    let u = chars_of(url);
    let n = u.len();
    let up: Vec<char> = vec!['.', '.', '/'];
    let cur: Vec<char> = vec!['.', '/'];
    assert(up@ =~= seq!['.', '.', '/']);
    assert(cur@ =~= seq!['.', '/']);
    let mut k: usize = 0;
    assert(u@.subrange(0, n as int) =~= u@);
    loop
        invariant
            k <= n == u@.len(),
            up@ == seq!['.', '.', '/'],
            cur@ == seq!['.', '/'],
            strip_relative(u@) == strip_relative(u@.subrange(k as int, n as int)),
        ensures
            k <= n,
            strip_relative(u@) == u@.subrange(k as int, n as int),
        decreases n - k,
    {
        let ghost rest = u@.subrange(k as int, n as int);
        if occurs(&u, k, &up) {
            assert(rest.subrange(0, 3) =~= u@.subrange(k as int, k + 3));
            assert(rest.subrange(3, rest.len() as int) =~= u@.subrange(k + 3, n as int));
            k = k + 3;
        } else if occurs(&u, k, &cur) {
            assert(!occurs_at(rest, 0, seq!['.', '.', '/'])) by {
                if rest.len() >= 3 {
                    assert(rest.subrange(0, 3) =~= u@.subrange(k as int, k + 3));
                }
            }
            assert(rest.subrange(0, 2) =~= u@.subrange(k as int, k + 2));
            assert(rest.subrange(2, rest.len() as int) =~= u@.subrange(k + 2, n as int));
            k = k + 2;
        } else {
            assert(!occurs_at(rest, 0, seq!['.', '.', '/'])) by {
                if rest.len() >= 3 {
                    assert(rest.subrange(0, 3) =~= u@.subrange(k as int, k + 3));
                }
            }
            assert(!occurs_at(rest, 0, seq!['.', '/'])) by {
                if rest.len() >= 2 {
                    assert(rest.subrange(0, 2) =~= u@.subrange(k as int, k + 2));
                }
            }
            break;
        }
    }
    if k == n {
        return None;
    }
    let mut j: usize = k;
    while j < n
        invariant
            k <= j <= n == u@.len(),
            u@ == url@,
            strip_relative(u@) == u@.subrange(k as int, n as int),
            forall|t: int| k <= t < j ==> is_stem_char(u@[t]),
        decreases n - j,
    {
        let c = u[j];
        if !(is_alphanumeric(c) || c == '_') {
            let ghost r = strip_relative(u@);
            assert(r[j - k] == c);
            assert(!is_stem_char(r[j - k]));
            assert(wiki_stem(url@) is None);
            return None;
        }
        j = j + 1;
    }
    Some(substring(&u, k, n))
}

/// The internal link stems of one line from position `i` on: each `](` opens
/// a link target that runs to the next `)` or the end of the line.
pub open spec fn link_scan(l: Seq<char>, i: int) -> Seq<Seq<char>>
    decreases l.len() - i,
{
    match find_from(l, seq![']', '('], i) {
        Some(p) => {
            let e = next_char(l, ')', p + 2);
            if 0 <= i <= p && p + 2 <= e <= l.len() {
                match wiki_stem(l.subrange(p + 2, e)) {
                    Some(t) => seq![t] + link_scan(l, e),
                    None => link_scan(l, e),
                }
            } else {
                seq![]
            }
        },
        None => seq![],
    }
}

/// The internal link stems of the lines `ls` outside fenced code blocks, and
/// whether a code block is still open after them.
pub open spec fn link_lines(ls: Seq<Seq<char>>) -> (Seq<Seq<char>>, bool)
    decreases ls.len(),
{
    if ls.len() == 0 {
        (seq![], false)
    } else {
        let prev = link_lines(ls.drop_last());
        let l = ls.last();
        if is_fence(l) {
            (prev.0, !prev.1)
        } else if prev.1 {
            prev
        } else {
            (prev.0 + link_scan(l, 0), false)
        }
    }
}

/// The stems that a body links to internally, in order, repeats kept.
pub open spec fn link_stems(c: Seq<char>) -> Seq<Seq<char>> {
    link_lines(lines(c)).0
}

fn line_links(l: &Vec<char>, out: &mut Vec<String>)
    ensures
        string_views(final(out)@) == string_views(old(out)@) + link_scan(l@, 0),
{
    let n = l.len();
    let open: Vec<char> = vec![']', '('];
    assert(open@ =~= seq![']', '(']);
    let ghost start = string_views(out@);
    let mut i: usize = 0;
    loop
        invariant
            i <= n == l@.len(),
            open@ == seq![']', '('],
            string_views(out@) + link_scan(l@, i as int) == start + link_scan(l@, 0),
        ensures
            string_views(out@) == start + link_scan(l@, 0),
        decreases n - i,
    {
        match find(l, &open, i) {
            Some(p) => {
                let e = crate::text::find_char(l, ')', p + 2);
                let target = string_of(&slice_of(l, p + 2, e));
                let ghost old_o = string_views(out@);
                match wiki_link_stem(target.as_str()) {
                    Some(t) => {
                        out.push(t);
                        assert(string_views(out@) =~= old_o + seq![wiki_stem(l@.subrange(p + 2, e as int))->0]);
                    },
                    None => {},
                }
                i = e;
            },
            None => {
                assert(link_scan(l@, i as int) =~= seq![]);
                assert(string_views(out@) + seq![] =~= string_views(out@));
                break;
            },
        }
    }
}

/// The stems that a body links to internally, in order, repeats kept.
pub fn extract_wiki_link_stems(body: &str) -> (r: Vec<String>)
    ensures
        string_views(r@) == link_stems(body@),
{
    let c = chars_of(body);
    let ls = split_lines(&c);
    let mut stems: Vec<String> = Vec::new();
    let mut in_code: bool = false;
    let mut i: usize = 0;
    assert(views(ls@).subrange(0, 0) =~= seq![]);
    while i < ls.len()
        invariant
            i <= ls@.len(),
            views(ls@) == lines(c@),
            (string_views(stems@), in_code) == link_lines(views(ls@).subrange(0, i as int)),
        decreases ls@.len() - i,
    {
        assert(views(ls@).subrange(0, i + 1).drop_last() =~= views(ls@).subrange(0, i as int));
        let line = &ls[i];
        if fence(line) {
            in_code = !in_code;
        } else if !in_code {
            line_links(line, &mut stems);
        }
        i = i + 1;
    }
    assert(views(ls@).subrange(0, ls@.len() as int) =~= views(ls@));
    stems
}

/// The position just after the last `c` before `i`, or 0.
pub open spec fn after_last(s: Seq<char>, c: char, i: int) -> int
    decreases i,
{
    if i <= 0 || i > s.len() {
        0
    } else if s[i - 1] == c {
        i
    } else {
        after_last(s, c, i - 1)
    }
}

pub proof fn lemma_after_last(s: Seq<char>, c: char, i: int)
    requires
        0 <= i <= s.len(),
    ensures
        0 <= after_last(s, c, i) <= i,
        after_last(s, c, i) > 0 ==> s[after_last(s, c, i) - 1] == c,
    decreases i,
{
    if i > 0 && s[i - 1] != c {
        lemma_after_last(s, c, i - 1);
    }
}

pub(crate) fn after_last_of(s: &Vec<char>, c: char) -> (r: usize)
    ensures
        r == after_last(s@, c, s@.len() as int),
        r <= s@.len(),
{
    proof { lemma_after_last(s@, c, s@.len() as int); }
    let mut i: usize = s.len();
    while i > 0 && s[i - 1] != c
        invariant
            i <= s@.len(),
            after_last(s@, c, s@.len() as int) == after_last(s@, c, i as int),
        decreases i,
    {
        i = i - 1;
    }
    i
}

/// The last component of a `/`-separated path.
pub open spec fn file_name(p: Seq<char>) -> Seq<char> {
    p.subrange(after_last(p, '/', p.len() as int), p.len() as int)
}

/// A file name without its extension: what precedes its last `.`, unless that
/// `.` is its first character.
pub open spec fn file_stem(n: Seq<char>) -> Seq<char> {
    let d = after_last(n, '.', n.len() as int);
    if d > 1 {
        n.subrange(0, d - 1)
    } else {
        n
    }
}

/// The markup link to a note: `[title](path)`.
pub open spec fn link_text(title: Seq<char>, path: Seq<char>) -> Seq<char> {
    seq!['['] + title + seq![']', '('] + path + seq![')']
}

fn push_chars(v: &mut Vec<char>, s: &Vec<char>)
    ensures
        final(v)@ == old(v)@ + s@,
{
    let mut i: usize = 0;
    while i < s.len()
        invariant
            i <= s@.len(),
            v@ == old(v)@ + s@.subrange(0, i as int),
        decreases s@.len() - i,
    {
        v.push(s[i]);
        i = i + 1;
        assert(v@ =~= old(v)@ + s@.subrange(0, i as int));
    }
    assert(s@.subrange(0, s@.len() as int) =~= s@);
}

/// The preamble text of a note, if it has one.
pub open spec fn preamble_text(c: Seq<char>) -> Option<Seq<char>> {
    match preamble_bounds(c).0 {
        Some(b) => Some(c.subrange(b.0, b.1)),
        None => None,
    }
}

/// The preamble mapping of a note; empty where there is none.
pub open spec fn preamble_map(c: Seq<char>) -> Seq<(Yaml, Yaml)> {
    match preamble_text(c) {
        Some(t) => match yaml_doc(t) {
            Some(d) => mapping_of(d),
            None => seq![],
        },
        None => seq![],
    }
}

/// Whether a note has a preamble that is not YAML.
pub open spec fn preamble_fails(c: Seq<char>) -> bool {
    preamble_text(c) matches Some(t) && yaml_doc(t) is None
}

/// The text of a note after its preamble.
pub open spec fn after_preamble(c: Seq<char>) -> Seq<char> {
    c.subrange(preamble_bounds(c).1, c.len() as int)
}

/// `n` is the note parsed from text `c` at relative path `rel` and absolute
/// path `abs`, modified at `modified` and born at `birth`.
pub open spec fn parsed_as(n: Note, c: Seq<char>, rel: Seq<char>, abs: Seq<char>, modified: i64, birth: Option<i64>) -> bool {
    let m = preamble_map(c);
    let after = after_preamble(c);
    let tb = title_and_body(after, string_field(m, title_key()));
    &&& n.title_v() == tb.0
    &&& n.body_v() == tb.1
    &&& n.lead_v() == lead_of(tb.1)
    &&& n.raw_v() == c
    &&& n.tags_v() == push_tags(preamble_tags(m), inline_tags(after))
    &&& n.aliases_v() == string_list(field(m, aliases_key()))
    &&& n.links_v() == link_stems(tb.1)
    &&& n.path_v() == rel
    &&& n.abs_path_v() == abs
    &&& n.filename_v() == file_name(rel)
    &&& n.stem_v() == file_stem(file_name(rel))
    &&& n.link_v() == link_text(tb.0, rel)
    &&& n.word_count_v() == words(c).len()
    &&& n.modified_v() == modified
    &&& n.created_v() == created_of(string_field(m, date_key()), birth, modified)
}

/// Parses a note from its text and file metadata. Fails only where the note
/// has a preamble that is not YAML; the error then names `abs_path`.
pub fn parse_note(content: &str, path: &str, abs_path: &str, modified: i64, birth: Option<i64>) -> (r: Result<Note, crate::error::Error>)
    ensures
        preamble_fails(content@) ==> (r matches Err(e) && e.is_yaml_for(abs_path@)),
        !preamble_fails(content@) ==> (r matches Ok(n) && parsed_as(n, content@, path@, abs_path@, modified, birth)),
        r matches Ok(n) ==> unique_ci(n.tags_v()),
{
    let c = chars_of(content);
    let (bounds, start) = preamble_split(&c);
    let fm = match bounds {
        Some((lo, hi)) => {
            let text = substring(&c, lo, hi);
            parse_yaml(text.as_str(), abs_path)?
        },
        None => Frontmatter::empty(),
    };
    let ghost m = preamble_map(content@);
    assert(opt_view(fm.title) == string_field(m, title_key()));
    assert(opt_view(fm.date) == string_field(m, date_key()));
    assert(string_views(fm.aliases@) == string_list(field(m, aliases_key())));
    assert(string_views(fm.tags@) == preamble_tags(m)) by {
        if bounds is None {
            assert(string_views(fm.tags@) =~= seq![]);
        }
    }
    let after_s = substring(&c, start, c.len());
    let (title, body) = extract_title_and_body(after_s.as_str(), &fm);
    let lead = extract_lead(body.as_str());
    let modified_at = modified;
    let created = match &fm.date {
        Some(d) => match crate::dates::parse_date_string(d.as_str()) {
            Some(t) => t,
            None => match birth {
                Some(b) => b,
                None => modified_at,
            },
        },
        None => match birth {
            Some(b) => b,
            None => modified_at,
        },
    };
    let inline = extract_inline_tags(after_s.as_str());
    let mut tags = fm.tags;
    proof {
        lemma_add_tags_unique(seq![], field_words(m, tags_key()));
        lemma_add_tags_unique(add_tags(seq![], field_words(m, tags_key())), field_words(m, tag_key()));
        lemma_add_tags_unique(add_tags(add_tags(seq![], field_words(m, tags_key())), field_words(m, tag_key())), field_words(m, keywords_key()));
        lemma_add_tags_unique(add_tags(add_tags(add_tags(seq![], field_words(m, tags_key())), field_words(m, tag_key())), field_words(m, keywords_key())), field_words(m, keyword_key()));
    }
    let ghost base = string_views(tags@);
    let mut i: usize = 0;
    while i < inline.len()
        invariant
            i <= inline@.len(),
            string_views(tags@) == push_tags(base, string_views(inline@).subrange(0, i as int)),
        decreases inline@.len() - i,
    {
        assert(string_views(inline@).subrange(0, i + 1).drop_last() =~= string_views(inline@).subrange(0, i as int));
        push_unique(inline[i].clone(), &mut tags);
        i = i + 1;
    }
    assert(string_views(inline@).subrange(0, inline@.len() as int) =~= string_views(inline@));
    proof { lemma_push_tags_unique(base, string_views(inline@)); }
    let outgoing_links = extract_wiki_link_stems(body.as_str());
    let p = chars_of(path);
    let slash = after_last_of(&p, '/');
    let name = slice_of(&p, slash, p.len());
    let dot = after_last_of(&name, '.');
    let stem = if dot > 1 { slice_of(&name, 0, dot - 1) } else { slice_of(&name, 0, name.len()) };
    assert(name@.subrange(0, name@.len() as int) =~= name@);
    let mut link_c: Vec<char> = vec!['['];
    let title_c = chars_of(title.as_str());
    push_chars(&mut link_c, &title_c);
    push_chars(&mut link_c, &vec![']', '(']);
    push_chars(&mut link_c, &p);
    push_chars(&mut link_c, &vec![')']);
    assert(link_c@ =~= link_text(title@, path@));
    let aliases = fm.aliases;
    Ok(Note::from_fields(
        string_of(&name),
        string_of(&stem),
        String::from_str(path),
        String::from_str(abs_path),
        title,
        string_of(&link_c),
        lead,
        body,
        String::from_str(content),
        crate::text::word_count(content),
        tags,
        aliases,
        outgoing_links,
        created,
        modified_at,
    ))
}

/// A preamble field given as a whitespace-separated string yields the same
/// tags as the YAML sequence of its words.
pub proof fn lemma_string_tags_as_list(s: String, items: Seq<Yaml>, tags: Seq<Seq<char>>)
    requires
        items.len() == words(s@).len(),
        forall|i: int| 0 <= i < items.len() ==> ((#[trigger] items[i]) matches Yaml::Str(w) && w@ == words(s@)[i]),
    ensures
        strings_of(items) == words(s@),
        add_tags(tags, tag_words(Yaml::Str(s))) == add_tags(tags, strings_of(items)),
{
    lemma_strings_of_all(items, words(s@));
}

proof fn lemma_strings_of_all(items: Seq<Yaml>, ws: Seq<Seq<char>>)
    requires
        items.len() == ws.len(),
        forall|i: int| 0 <= i < items.len() ==> ((#[trigger] items[i]) matches Yaml::Str(w) && w@ == ws[i]),
    ensures
        strings_of(items) == ws,
    decreases items.len(),
{
    if items.len() > 0 {
        lemma_strings_of_all(items.drop_last(), ws.drop_last());
        assert(items.last() == items[items.len() - 1]);
        assert(strings_of(items) =~= ws);
    } else {
        assert(ws =~= seq![]);
    }
}

/// Words joined by single spaces.
pub open spec fn join_words(xs: Seq<Seq<char>>) -> Seq<char>
    decreases xs.len(),
{
    if xs.len() == 0 {
        seq![]
    } else if xs.len() == 1 {
        xs[0]
    } else {
        xs[0] + seq![' '] + join_words(xs.drop_first())
    }
}

proof fn lemma_word_end_at(s: Seq<char>, k: int, e: int)
    requires
        0 <= k <= e <= s.len(),
        forall|i: int| k <= i < e ==> !is_space(#[trigger] s[i]),
        e == s.len() || is_space(s[e]),
    ensures
        crate::text::word_end(s, k) == e,
    decreases e - k,
{
    if k < e {
        lemma_word_end_at(s, k + 1, e);
    }
}

proof fn lemma_word_end_shift(a: Seq<char>, b: Seq<char>, k: int)
    requires
        0 <= k <= b.len(),
    ensures
        crate::text::word_end(a + b, a.len() + k) == a.len() + crate::text::word_end(b, k),
    decreases b.len() - k,
{
    if k < b.len() {
        assert((a + b)[a.len() + k] == b[k]);
        if !is_space(b[k]) {
            lemma_word_end_shift(a, b, k + 1);
        }
    }
}

proof fn lemma_words_shift(a: Seq<char>, b: Seq<char>, k: int)
    requires
        0 <= k <= b.len(),
    ensures
        crate::text::words_from(a + b, a.len() + k) == crate::text::words_from(b, k),
    decreases b.len() - k,
{
    if k < b.len() {
        assert((a + b)[a.len() + k] == b[k]);
        if is_space(b[k]) {
            lemma_words_shift(a, b, k + 1);
        } else {
            lemma_word_end_shift(a, b, k);
            crate::text::lemma_word_end(b, k);
            let e = crate::text::word_end(b, k);
            assert((a + b).subrange(a.len() + k, a.len() + e) =~= b.subrange(k, e));
            lemma_words_shift(a, b, e);
        }
    }
}

/// The words of words joined by single spaces are those words, where each is
/// non-empty and holds no whitespace.
pub proof fn lemma_words_of_join(xs: Seq<Seq<char>>)
    requires
        forall|i: int| 0 <= i < xs.len() ==> (#[trigger] xs[i]).len() > 0,
        forall|i: int, k: int| 0 <= i < xs.len() && 0 <= k < xs[i].len() ==> !is_space(#[trigger] xs[i][k]),
    ensures
        words(join_words(xs)) == xs,
    decreases xs.len(),
{
    if xs.len() == 0 {
        assert(words(join_words(xs)) =~= xs);
    } else if xs.len() == 1 {
        let w = xs[0];
        assert forall|i: int| 0 <= i < w.len() implies !is_space(#[trigger] w[i]) by {
            assert(!is_space(xs[0][i]));
        }
        lemma_word_end_at(w, 0, w.len() as int);
        assert(w.subrange(0, w.len() as int) =~= w);
        assert(crate::text::words_from(w, w.len() as int) =~= seq![]);
        assert(words(w) =~= xs);
    } else {
        let w = xs[0];
        let tail = xs.drop_first();
        assert forall|i: int| 0 <= i < tail.len() implies (#[trigger] tail[i]).len() > 0 by {
            assert(tail[i] == xs[i + 1]);
        }
        assert forall|i: int, k: int| 0 <= i < tail.len() && 0 <= k < tail[i].len() implies !is_space(#[trigger] tail[i][k]) by {
            assert(tail[i] == xs[i + 1]);
        }
        lemma_words_of_join(tail);
        let rest = join_words(tail);
        let a = w + seq![' '];
        let s = join_words(xs);
        assert(s =~= a + rest);
        assert forall|i: int| 0 <= i < w.len() implies !is_space(#[trigger] s[i]) by {
            assert(s[i] == xs[0][i]);
        }
        assert(s[w.len() as int] == ' ');
        lemma_word_end_at(s, 0, w.len() as int);
        assert(s.subrange(0, w.len() as int) =~= w);
        lemma_words_shift(a, rest, 0);
        assert(crate::text::words_from(s, w.len() as int) == crate::text::words_from(s, (w.len() + 1) as int));
        assert(words(s) =~= seq![w] + tail);
        assert(seq![w] + tail =~= xs);
    }
}

/// Tags given as one string of words separated by single spaces equal those
/// given as the YAML sequence of the same words, where each word is non-empty
/// and holds no whitespace.
pub proof fn lemma_joined_tags_as_list(s: String, xs: Seq<Seq<char>>, items: Seq<Yaml>, tags: Seq<Seq<char>>)
    requires
        forall|i: int| 0 <= i < xs.len() ==> (#[trigger] xs[i]).len() > 0,
        forall|i: int, k: int| 0 <= i < xs.len() && 0 <= k < xs[i].len() ==> !is_space(#[trigger] xs[i][k]),
        s@ == join_words(xs),
        items.len() == xs.len(),
        forall|i: int| 0 <= i < items.len() ==> ((#[trigger] items[i]) matches Yaml::Str(w) && w@ == xs[i]),
    ensures
        add_tags(tags, tag_words(Yaml::Str(s))) == add_tags(tags, strings_of(items)),
{
    lemma_words_of_join(xs);
    lemma_strings_of_all(items, xs);
}

/// Parsing the same text at the same paths twice gives the same note in all
/// but its times; the modification time is the one given, and the creation
/// time agrees where the preamble date reads or the birth time is known.
pub proof fn lemma_reparse(n1: Note, n2: Note, c: Seq<char>, rel: Seq<char>, abs: Seq<char>, m1: i64, m2: i64, birth: Option<i64>)
    requires
        parsed_as(n1, c, rel, abs, m1, birth),
        parsed_as(n2, c, rel, abs, m2, birth),
    ensures
        n1.same_content(&n2),
        n1.modified_v() == m1 && n2.modified_v() == m2,
        birth is Some ==> n1.created_v() == n2.created_v(),
        n1.created_v() != n2.created_v() ==> n1.created_v() == m1 && n2.created_v() == m2,
{
}

} // verus!
