//! A parsed note.

use vstd::prelude::*;

use crate::parse::has_tag_ci;
use crate::text::{same_lowercase, string_views};

verus! {

/// One parsed note file. Times are seconds since the Unix epoch.
#[derive(Clone)]
pub struct Note {
    pub(crate) filename: String,
    pub(crate) filename_stem: String,
    pub(crate) path: String,
    pub(crate) abs_path: String,
    pub(crate) title: String,
    pub(crate) link: String,
    pub(crate) lead: String,
    pub(crate) body: String,
    pub(crate) raw_content: String,
    pub(crate) word_count: usize,
    pub(crate) tags: Vec<String>,
    pub(crate) aliases: Vec<String>,
    pub(crate) outgoing_links: Vec<String>,
    pub(crate) created: i64,
    pub(crate) modified: i64,
}

impl Note {
    pub closed spec fn filename_v(&self) -> Seq<char> {
        self.filename@
    }

    pub closed spec fn stem_v(&self) -> Seq<char> {
        self.filename_stem@
    }

    pub closed spec fn path_v(&self) -> Seq<char> {
        self.path@
    }

    pub closed spec fn abs_path_v(&self) -> Seq<char> {
        self.abs_path@
    }

    pub closed spec fn title_v(&self) -> Seq<char> {
        self.title@
    }

    pub closed spec fn link_v(&self) -> Seq<char> {
        self.link@
    }

    pub closed spec fn lead_v(&self) -> Seq<char> {
        self.lead@
    }

    pub closed spec fn body_v(&self) -> Seq<char> {
        self.body@
    }

    pub closed spec fn raw_v(&self) -> Seq<char> {
        self.raw_content@
    }

    pub closed spec fn word_count_v(&self) -> nat {
        self.word_count as nat
    }

    pub closed spec fn tags_v(&self) -> Seq<Seq<char>> {
        string_views(self.tags@)
    }

    pub closed spec fn aliases_v(&self) -> Seq<Seq<char>> {
        string_views(self.aliases@)
    }

    pub closed spec fn links_v(&self) -> Seq<Seq<char>> {
        string_views(self.outgoing_links@)
    }

    pub closed spec fn created_v(&self) -> i64 {
        self.created
    }

    pub closed spec fn modified_v(&self) -> i64 {
        self.modified
    }

    /// Whether the note has `tag`, compared case-insensitively.
    pub open spec fn has_v(&self, tag: Seq<char>) -> bool {
        has_tag_ci(self.tags_v(), tag)
    }

    /// The two notes agree in every field but the modification and creation times.
    pub open spec fn same_content(&self, o: &Note) -> bool {
        &&& self.filename_v() == o.filename_v()
        &&& self.stem_v() == o.stem_v()
        &&& self.path_v() == o.path_v()
        &&& self.abs_path_v() == o.abs_path_v()
        &&& self.title_v() == o.title_v()
        &&& self.link_v() == o.link_v()
        &&& self.lead_v() == o.lead_v()
        &&& self.body_v() == o.body_v()
        &&& self.raw_v() == o.raw_v()
        &&& self.word_count_v() == o.word_count_v()
        &&& self.tags_v() == o.tags_v()
        &&& self.aliases_v() == o.aliases_v()
        &&& self.links_v() == o.links_v()
    }

    /// A note from its fields.
    pub(crate) fn from_fields(
        filename: String,
        filename_stem: String,
        path: String,
        abs_path: String,
        title: String,
        link: String,
        lead: String,
        body: String,
        raw_content: String,
        word_count: usize,
        tags: Vec<String>,
        aliases: Vec<String>,
        outgoing_links: Vec<String>,
        created: i64,
        modified: i64,
    ) -> (r: Note)
        ensures
            r.filename_v() == filename@,
            r.stem_v() == filename_stem@,
            r.path_v() == path@,
            r.abs_path_v() == abs_path@,
            r.title_v() == title@,
            r.link_v() == link@,
            r.lead_v() == lead@,
            r.body_v() == body@,
            r.raw_v() == raw_content@,
            r.word_count_v() == word_count,
            r.tags_v() == string_views(tags@),
            r.aliases_v() == string_views(aliases@),
            r.links_v() == string_views(outgoing_links@),
            r.created_v() == created,
            r.modified_v() == modified,
    {
        Note {
            filename,
            filename_stem,
            path,
            abs_path,
            title,
            link,
            lead,
            body,
            raw_content,
            word_count,
            tags,
            aliases,
            outgoing_links,
            created,
            modified,
        }
    }

    /// Whether the note's stem is `stem`.
    pub fn has_stem(&self, stem: &str) -> (r: bool)
        ensures
            r == (self.stem_v() == stem@),
    {
        let s = String::from_str(stem);
        self.filename_stem == s
    }

    pub fn filename(&self) -> (r: &str)
        ensures
            r@ == self.filename_v(),
    {
        self.filename.as_str()
    }

    pub fn filename_stem(&self) -> (r: &str)
        ensures
            r@ == self.stem_v(),
    {
        self.filename_stem.as_str()
    }

    pub fn path(&self) -> (r: &str)
        ensures
            r@ == self.path_v(),
    {
        self.path.as_str()
    }

    pub fn abs_path(&self) -> (r: &str)
        ensures
            r@ == self.abs_path_v(),
    {
        self.abs_path.as_str()
    }

    pub fn title(&self) -> (r: &str)
        ensures
            r@ == self.title_v(),
    {
        self.title.as_str()
    }

    pub fn link(&self) -> (r: &str)
        ensures
            r@ == self.link_v(),
    {
        self.link.as_str()
    }

    pub fn lead(&self) -> (r: &str)
        ensures
            r@ == self.lead_v(),
    {
        self.lead.as_str()
    }

    pub fn body(&self) -> (r: &str)
        ensures
            r@ == self.body_v(),
    {
        self.body.as_str()
    }

    pub fn raw_content(&self) -> (r: &str)
        ensures
            r@ == self.raw_v(),
    {
        self.raw_content.as_str()
    }

    pub fn word_count(&self) -> (r: usize)
        ensures
            r == self.word_count_v(),
    {
        self.word_count
    }

    pub fn tags(&self) -> (r: &[String])
        ensures
            string_views(r@) == self.tags_v(),
    {
        self.tags.as_slice()
    }

    pub fn aliases(&self) -> (r: &[String])
        ensures
            string_views(r@) == self.aliases_v(),
    {
        self.aliases.as_slice()
    }

    pub fn outgoing_links(&self) -> (r: &[String])
        ensures
            string_views(r@) == self.links_v(),
    {
        self.outgoing_links.as_slice()
    }

    pub fn created(&self) -> (r: i64)
        ensures
            r == self.created_v(),
    {
        self.created
    }

    pub fn modified(&self) -> (r: i64)
        ensures
            r == self.modified_v(),
    {
        self.modified
    }

    /// Whether the note has `tag`, compared case-insensitively.
    pub fn has(&self, tag: &str) -> (r: bool)
        ensures
            r == self.has_v(tag@),
    {
        let mut i: usize = 0;
        while i < self.tags.len()
            invariant
                i <= self.tags@.len(),
                forall|j: int| 0 <= j < i ==> crate::text::lower_of(self.tags_v()[j]) != crate::text::lower_of(tag@),
            decreases self.tags@.len() - i,
        {
            if same_lowercase(self.tags[i].as_str(), tag) {
                assert(crate::text::lower_of(self.tags_v()[i as int]) == crate::text::lower_of(tag@));
                return true;
            }
            i = i + 1;
        }
        false
    }
}

} // verus!
