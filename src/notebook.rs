//! The in-memory index of a collection of notes.

use vstd::prelude::*;

use crate::error::Error;
use crate::note::Note;
use crate::parse::{file_name, file_stem, parse_note, parsed_as, preamble_fails, unique_ci};
use crate::text::{chars_of, lower_of, lowercase, string_views};

verus! {

/// The stems of the notes that carry one lowercased tag.
pub struct TagBucket {
    pub(crate) tag: String,
    pub(crate) stems: Vec<String>,
}

/// A note file as read from disk: its path relative to the root, its absolute
/// path, its text, and its modification and birth times (seconds since the
/// Unix epoch).
pub struct SourceFile {
    pub path: String,
    pub abs_path: String,
    pub content: String,
    pub modified: i64,
    pub birth: Option<i64>,
}

/// The notes of a collection, in index order, with an inverted index from
/// lowercased tag to the stems of the notes that carry it.
pub struct Notebook {
    root: String,
    notes: Vec<Note>,
    tags: Vec<TagBucket>,
}

/// Whether a note carries a tag that lowercases to `k`.
pub open spec fn note_has_key(n: Note, k: Seq<char>) -> bool {
    exists|j: int| 0 <= j < n.tags_v().len() && lower_of(#[trigger] n.tags_v()[j]) == k
}

/// Whether some note of `notes` has stem `x` and a tag that lowercases to `k`.
pub open spec fn noted(notes: Seq<Note>, k: Seq<char>, x: Seq<char>) -> bool {
    exists|i: int| 0 <= i < notes.len() && (#[trigger] notes[i]).stem_v() == x && note_has_key(notes[i], k)
}

/// No two notes share a stem.
pub open spec fn stems_unique(notes: Seq<Note>) -> bool {
    forall|i: int, j: int|
        0 <= i < notes.len() && 0 <= j < notes.len() && i != j ==> (#[trigger] notes[i]).stem_v() != (#[trigger] notes[j]).stem_v()
}

/// Whether a bucket list maps tag `k` to a list holding stem `x`.
pub(crate) open spec fn bucket_has(b: Seq<TagBucket>, k: Seq<char>, x: Seq<char>) -> bool {
    exists|i: int| 0 <= i < b.len() && (#[trigger] b[i]).tag@ == k && string_views(b[i].stems@).contains(x)
}

/// Bucket keys are distinct and no bucket is empty.
pub(crate) open spec fn buckets_ok(b: Seq<TagBucket>) -> bool {
    &&& forall|i: int, j: int| 0 <= i < b.len() && 0 <= j < b.len() && i != j ==> (#[trigger] b[i]).tag@ != (#[trigger] b[j]).tag@
    &&& forall|i: int| 0 <= i < b.len() ==> (#[trigger] b[i]).stems@.len() > 0
}

pub open spec fn derefs(s: Seq<&Note>) -> Seq<Note> {
    s.map_values(|r: &Note| *r)
}

/// Notes that carry `t`, compared case-insensitively.
pub open spec fn has_tag(t: Seq<char>) -> spec_fn(Note) -> bool {
    |n: Note| n.has_v(t)
}

/// Notes that carry every tag of `ts`.
pub open spec fn has_all(ts: Seq<Seq<char>>) -> spec_fn(Note) -> bool {
    |n: Note| forall|i: int| 0 <= i < ts.len() ==> n.has_v(#[trigger] ts[i])
}

/// The notes that `all_notes` lists for an optional tag.
pub open spec fn listed(notes: Seq<Note>, tag: Option<Seq<char>>) -> Seq<Note> {
    match tag {
        Some(t) => notes.filter(has_tag(t)),
        None => notes,
    }
}

pub open spec fn public_tag() -> Seq<char> {
    seq!['p', 'u', 'b', 'l', 'i', 'c']
}

/// Notes that link to `stem` and, where `public_only`, carry the public tag.
pub open spec fn links_to(stem: Seq<char>, public_only: bool) -> spec_fn(Note) -> bool {
    |n: Note| n.links_v().contains(stem) && (!public_only || n.has_v(public_tag()))
}

impl Notebook {
    /// The notes, in index order.
    pub closed spec fn notes_v(&self) -> Seq<Note> {
        self.notes@
    }

    /// Whether the inverted index maps tag `k` to a list holding stem `x`.
    pub closed spec fn indexed(&self, k: Seq<char>, x: Seq<char>) -> bool {
        bucket_has(self.tags@, k, x)
    }

    /// The notebook's invariant: stems are unique, each note's tags are
    /// unique case-insensitively, and the inverted index is exactly the
    /// inverse of the notes' lowercased tags, with no empty bucket.
    pub closed spec fn wf(&self) -> bool {
        &&& stems_unique(self.notes@)
        &&& forall|i: int| 0 <= i < self.notes@.len() ==> unique_ci((#[trigger] self.notes@[i]).tags_v())
        &&& buckets_ok(self.tags@)
        &&& forall|k: Seq<char>, x: Seq<char>| bucket_has(self.tags@, k, x) <==> noted(self.notes@, k, x)
    }

    /// The position of the note with stem `stem`.
    fn position(&self, stem: &str) -> (r: Option<usize>)
        ensures
            r matches Some(i) ==> i < self.notes@.len() && self.notes@[i as int].stem_v() == stem@,
            r is None ==> forall|i: int| 0 <= i < self.notes@.len() ==> (#[trigger] self.notes@[i]).stem_v() != stem@,
    {
        let mut i: usize = 0;
        while i < self.notes.len()
            invariant
                i <= self.notes@.len(),
                forall|j: int| 0 <= j < i ==> (#[trigger] self.notes@[j]).stem_v() != stem@,
            decreases self.notes@.len() - i,
        {
            if self.notes[i].has_stem(stem) {
                return Some(i);
            }
            i = i + 1;
        }
        None
    }

    /// The note with stem `stem`, if there is one.
    pub fn note(&self, stem: &str) -> (r: Option<&Note>)
        ensures
            r matches Some(n) ==> n.stem_v() == stem@ && self.notes_v().contains(*n),
            r is None ==> forall|i: int| 0 <= i < self.notes_v().len() ==> (#[trigger] self.notes_v()[i]).stem_v() != stem@,
    {
        match self.position(stem) {
            Some(i) => {
                assert(self.notes@[i as int] == self.notes@[i as int]);
                Some(&self.notes[i])
            },
            None => None,
        }
    }

    /// The notes in index order; with a tag, only those that carry it
    /// (compared case-insensitively), found through the inverted index.
    pub fn all_notes(&self, with_tag: Option<&str>) -> (r: Vec<&Note>)
        requires
            self.wf(),
        ensures
            derefs(r@) == listed(self.notes_v(), opt_str(with_tag)),
    {
        let mut out: Vec<&Note> = Vec::new();
        match with_tag {
            None => {
                let mut i: usize = 0;
                while i < self.notes.len()
                    invariant
                        i <= self.notes@.len(),
                        derefs(out@) == self.notes@.subrange(0, i as int),
                    decreases self.notes@.len() - i,
                {
                    let ghost old_out = out@;
                    out.push(&self.notes[i]);
                    assert(derefs(out@) =~= derefs(old_out).push(self.notes@[i as int]));
                    i = i + 1;
                    assert(derefs(out@) =~= self.notes@.subrange(0, i as int));
                }
                assert(self.notes@.subrange(0, self.notes@.len() as int) =~= self.notes@);
            },
            Some(t) => {
                let key = lowercase(t);
                let b = self.bucket(&key);
                let ghost p = has_tag(t@);
                let mut i: usize = 0;
                assert(derefs(out@) =~= self.notes@.subrange(0, 0).filter(p));
                while i < self.notes.len()
                    invariant
                        self.wf(),
                        key@ == lower_of(t@),
                        p == has_tag(t@),
                        b matches Some(j) ==> j < self.tags@.len() && self.tags@[j as int].tag@ == key@,
                        b is None ==> forall|j: int| 0 <= j < self.tags@.len() ==> (#[trigger] self.tags@[j]).tag@ != key@,
                        i <= self.notes@.len(),
                        derefs(out@) == self.notes@.subrange(0, i as int).filter(p),
                    decreases self.notes@.len() - i,
                {
                    let ghost pre = self.notes@.subrange(0, i as int);
                    assert(self.notes@.subrange(0, i + 1) =~= pre.push(self.notes@[i as int]));
                    proof { pre.lemma_filter_push(self.notes@[i as int], p); }
                    let n = &self.notes[i];
                    let hit = match b {
                        Some(j) => stem_in(&self.tags[j].stems, n.filename_stem()),
                        None => false,
                    };
                    proof { self.lemma_indexed_note(i as int, key@); }
                    let ghost old_out = out@;
                    if hit {
                        out.push(n);
                        assert(derefs(out@) =~= derefs(old_out).push(self.notes@[i as int]));
                    }
                    i = i + 1;
                    assert(derefs(out@) =~= self.notes@.subrange(0, i as int).filter(p));
                }
                assert(self.notes@.subrange(0, self.notes@.len() as int) =~= self.notes@);
            },
        }
        out
    }

    /// The note at `i` carries a tag lowercasing to `k` exactly when the
    /// inverted index lists its stem under `k`.
    proof fn lemma_indexed_note(&self, i: int, k: Seq<char>)
        requires
            self.wf(),
            0 <= i < self.notes@.len(),
        ensures
            bucket_has(self.tags@, k, self.notes@[i].stem_v()) <==> note_has_key(self.notes@[i], k),
            forall|j: int| 0 <= j < self.tags@.len() && (#[trigger] self.tags@[j]).tag@ == k ==>
                (string_views(self.tags@[j].stems@).contains(self.notes@[i].stem_v()) <==> note_has_key(self.notes@[i], k)),
    {
        let x = self.notes@[i].stem_v();
        assert(bucket_has(self.tags@, k, x) <==> noted(self.notes@, k, x));
        if noted(self.notes@, k, x) {
            let w = choose|w: int| 0 <= w < self.notes@.len() && (#[trigger] self.notes@[w]).stem_v() == x && note_has_key(self.notes@[w], k);
            assert(w == i);
        }
        assert forall|j: int| 0 <= j < self.tags@.len() && (#[trigger] self.tags@[j]).tag@ == k implies
            (string_views(self.tags@[j].stems@).contains(x) <==> note_has_key(self.notes@[i], k)) by {
            if note_has_key(self.notes@[i], k) {
                assert(noted(self.notes@, k, x));
                let w = choose|w: int| 0 <= w < self.tags@.len() && (#[trigger] self.tags@[w]).tag@ == k && string_views(self.tags@[w].stems@).contains(x);
                assert(w == j);
            } else if string_views(self.tags@[j].stems@).contains(x) {
                assert(bucket_has(self.tags@, k, x));
            }
        }
    }

    /// The position of the bucket of key `key`.
    fn bucket(&self, key: &String) -> (r: Option<usize>)
        ensures
            r matches Some(j) ==> j < self.tags@.len() && self.tags@[j as int].tag@ == key@,
            r is None ==> forall|j: int| 0 <= j < self.tags@.len() ==> (#[trigger] self.tags@[j]).tag@ != key@,
    {
        let mut j: usize = 0;
        while j < self.tags.len()
            invariant
                j <= self.tags@.len(),
                forall|t: int| 0 <= t < j ==> (#[trigger] self.tags@[t]).tag@ != key@,
            decreases self.tags@.len() - j,
        {
            if self.tags[j].tag == *key {
                return Some(j);
            }
            j = j + 1;
        }
        None
    }

    /// The notes that carry every tag of `tags` (compared case-insensitively),
    /// in index order; all notes when `tags` is empty.
    pub fn notes_with_tags(&self, tags: &[&str]) -> (r: Vec<&Note>)
        ensures
            derefs(r@) == self.notes_v().filter(has_all(str_views(tags@))),
    {
        let ghost p = has_all(str_views(tags@));
        let mut out: Vec<&Note> = Vec::new();
        let mut i: usize = 0;
        assert(derefs(out@) =~= self.notes@.subrange(0, 0).filter(p));
        while i < self.notes.len()
            invariant
                p == has_all(str_views(tags@)),
                i <= self.notes@.len(),
                derefs(out@) == self.notes@.subrange(0, i as int).filter(p),
            decreases self.notes@.len() - i,
        {
            let ghost pre = self.notes@.subrange(0, i as int);
            assert(self.notes@.subrange(0, i + 1) =~= pre.push(self.notes@[i as int]));
            proof { pre.lemma_filter_push(self.notes@[i as int], p); }
            let n = &self.notes[i];
            let mut all = true;
            let mut k: usize = 0;
            while k < tags.len()
                invariant
                    k <= tags@.len(),
                    all <==> forall|t: int| 0 <= t < k ==> n.has_v(#[trigger] str_views(tags@)[t]),
                decreases tags@.len() - k,
            {
                assert(str_views(tags@)[k as int] == tags@[k as int]@);
                if !n.has(tags[k]) {
                    all = false;
                }
                k = k + 1;
            }
            let ghost old_out = out@;
            if all {
                out.push(n);
                assert(derefs(out@) =~= derefs(old_out).push(self.notes@[i as int]));
            }
            i = i + 1;
            assert(derefs(out@) =~= self.notes@.subrange(0, i as int).filter(p));
        }
        assert(self.notes@.subrange(0, self.notes@.len() as int) =~= self.notes@);
        out
    }

    /// The notes that link to `stem`, in index order; where `public_only`,
    /// only those that carry the public tag.
    pub fn backlinks(&self, stem: &str, public_only: bool) -> (r: Vec<&Note>)
        ensures
            derefs(r@) == self.notes_v().filter(links_to(stem@, public_only)),
    {
        let ghost p = links_to(stem@, public_only);
        let public = "public";
        proof { reveal_strlit("public"); }
        assert(public@ =~= public_tag());
        let s = String::from_str(stem);
        let mut out: Vec<&Note> = Vec::new();
        let mut i: usize = 0;
        assert(derefs(out@) =~= self.notes@.subrange(0, 0).filter(p));
        while i < self.notes.len()
            invariant
                p == links_to(stem@, public_only),
                public@ == public_tag(),
                s@ == stem@,
                i <= self.notes@.len(),
                derefs(out@) == self.notes@.subrange(0, i as int).filter(p),
            decreases self.notes@.len() - i,
        {
            let ghost pre = self.notes@.subrange(0, i as int);
            assert(self.notes@.subrange(0, i + 1) =~= pre.push(self.notes@[i as int]));
            proof { pre.lemma_filter_push(self.notes@[i as int], p); }
            let n = &self.notes[i];
            let links = n.outgoing_links();
            let mut found = false;
            let mut k: usize = 0;
            while k < links.len()
                invariant
                    k <= links@.len(),
                    s@ == stem@,
                    found <==> string_views(links@).subrange(0, k as int).contains(stem@),
                decreases links@.len() - k,
            {
                assert(string_views(links@).subrange(0, k + 1) =~= string_views(links@).subrange(0, k as int).push(links@[k as int]@));
                assert(string_views(links@).subrange(0, k + 1).contains(stem@) <==> (string_views(links@).subrange(0, k as int).contains(stem@) || links@[k as int]@ == stem@)) by {
                    let a = string_views(links@).subrange(0, k as int);
                    if a.push(links@[k as int]@).contains(stem@) && links@[k as int]@ != stem@ {
                        let w = choose|w: int| 0 <= w < a.len() + 1 && a.push(links@[k as int]@)[w] == stem@;
                        assert(a[w] == stem@);
                    }
                    if a.contains(stem@) {
                        let w = choose|w: int| 0 <= w < a.len() && a[w] == stem@;
                        assert(a.push(links@[k as int]@)[w] == stem@);
                    }
                    if links@[k as int]@ == stem@ {
                        assert(a.push(links@[k as int]@)[a.len() as int] == stem@);
                    }
                }
                if links[k] == s {
                    found = true;
                }
                k = k + 1;
            }
            assert(string_views(links@).subrange(0, links@.len() as int) =~= string_views(links@));
            let ghost old_out = out@;
            if found && (!public_only || n.has(public)) {
                out.push(n);
                assert(derefs(out@) =~= derefs(old_out).push(self.notes@[i as int]));
            }
            i = i + 1;
            assert(derefs(out@) =~= self.notes@.subrange(0, i as int).filter(p));
        }
        assert(self.notes@.subrange(0, self.notes@.len() as int) =~= self.notes@);
        out
    }
}

pub open spec fn opt_str(o: Option<&str>) -> Option<Seq<char>> {
    match o {
        Some(s) => Some(s@),
        None => None,
    }
}

pub open spec fn str_views(s: Seq<&str>) -> Seq<Seq<char>> {
    s.map_values(|x: &str| x@)
}

/// Whether `stems` holds `s`.
fn stem_in(stems: &Vec<String>, s: &str) -> (r: bool)
    ensures
        r == string_views(stems@).contains(s@),
{
    let t = String::from_str(s);
    let mut i: usize = 0;
    while i < stems.len()
        invariant
            i <= stems@.len(),
            t@ == s@,
            forall|j: int| 0 <= j < i ==> stems@[j]@ != s@,
        decreases stems@.len() - i,
    {
        if stems[i] == t {
            assert(string_views(stems@)[i as int] == s@);
            return true;
        }
        i = i + 1;
    }
    false
}

proof fn lemma_contains_push(s: Seq<Seq<char>>, e: Seq<char>, x: Seq<char>)
    ensures
        s.push(e).contains(x) <==> (s.contains(x) || e == x),
{
    if s.push(e).contains(x) && e != x {
        let w = choose|w: int| 0 <= w < s.len() + 1 && s.push(e)[w] == x;
        assert(s[w] == x);
    }
    if s.contains(x) {
        let w = choose|w: int| 0 <= w < s.len() && s[w] == x;
        assert(s.push(e)[w] == x);
    }
    if e == x {
        assert(s.push(e)[s.len() as int] == x);
    }
}

proof fn lemma_bucket_has_push(b: Seq<TagBucket>, nb: TagBucket, k: Seq<char>, x: Seq<char>)
    ensures
        bucket_has(b.push(nb), k, x) <==> (bucket_has(b, k, x) || (nb.tag@ == k && string_views(nb.stems@).contains(x))),
{
    if bucket_has(b.push(nb), k, x) {
        let w = choose|w: int| 0 <= w < b.len() + 1 && (#[trigger] b.push(nb)[w]).tag@ == k && string_views(b.push(nb)[w].stems@).contains(x);
        if w < b.len() {
            assert(b[w] == b.push(nb)[w]);
        }
    }
    if bucket_has(b, k, x) {
        let w = choose|w: int| 0 <= w < b.len() && (#[trigger] b[w]).tag@ == k && string_views(b[w].stems@).contains(x);
        assert(b.push(nb)[w] == b[w]);
    }
    if nb.tag@ == k && string_views(nb.stems@).contains(x) {
        assert(b.push(nb)[b.len() as int] == nb);
    }
}

proof fn lemma_bucket_has_remove(b: Seq<TagBucket>, i: int, k: Seq<char>, x: Seq<char>)
    requires
        0 <= i < b.len(),
    ensures
        bucket_has(b, k, x) <==> (bucket_has(b.remove(i), k, x) || (b[i].tag@ == k && string_views(b[i].stems@).contains(x))),
{
    let r = b.remove(i);
    if bucket_has(b, k, x) && !(b[i].tag@ == k && string_views(b[i].stems@).contains(x)) {
        let w = choose|w: int| 0 <= w < b.len() && (#[trigger] b[w]).tag@ == k && string_views(b[w].stems@).contains(x);
        if w < i {
            assert(r[w] == b[w]);
        } else {
            assert(r[w - 1] == b[w]);
        }
    }
    if bucket_has(r, k, x) {
        let w = choose|w: int| 0 <= w < r.len() && (#[trigger] r[w]).tag@ == k && string_views(r[w].stems@).contains(x);
        if w < i {
            assert(r[w] == b[w]);
        } else {
            assert(r[w] == b[w + 1]);
        }
    }
}

/// `stems` without `stem`.
fn without(stems: &Vec<String>, stem: &str) -> (r: Vec<String>)
    ensures
        forall|x: Seq<char>| string_views(r@).contains(x) <==> (string_views(stems@).contains(x) && x != stem@),
{
    let t = String::from_str(stem);
    let mut out: Vec<String> = Vec::new();
    let mut i: usize = 0;
    while i < stems.len()
        invariant
            i <= stems@.len(),
            t@ == stem@,
            forall|x: Seq<char>| string_views(out@).contains(x) <==> (string_views(stems@).subrange(0, i as int).contains(x) && x != stem@),
        decreases stems@.len() - i,
    {
        let ghost old_out = string_views(out@);
        let ghost e = stems@[i as int]@;
        assert(string_views(stems@).subrange(0, i + 1) =~= string_views(stems@).subrange(0, i as int).push(e));
        if stems[i] != t {
            out.push(stems[i].clone());
            assert(string_views(out@) =~= old_out.push(e));
        }
        assert forall|x: Seq<char>| string_views(out@).contains(x) <==> (string_views(stems@).subrange(0, i + 1).contains(x) && x != stem@) by {
            lemma_contains_push(old_out, e, x);
            lemma_contains_push(string_views(stems@).subrange(0, i as int), e, x);
        }
        i = i + 1;
    }
    assert(string_views(stems@).subrange(0, stems@.len() as int) =~= string_views(stems@));
    out
}

/// Drops `stem` from every bucket and the buckets left empty.
fn unindex(tags: &mut Vec<TagBucket>, stem: &str)
    requires
        buckets_ok(old(tags)@),
    ensures
        buckets_ok(final(tags)@),
        forall|k: Seq<char>, x: Seq<char>| bucket_has(final(tags)@, k, x) <==> (bucket_has(old(tags)@, k, x) && x != stem@),
{
    let ghost src = tags@;
    let mut out: Vec<TagBucket> = Vec::new();
    let ghost mut origin: Seq<int> = seq![];
    let mut i: usize = 0;
    while i < tags.len()
        invariant
            tags@ == src,
            buckets_ok(src),
            i <= src.len(),
            origin.len() == out@.len(),
            forall|j: int| 0 <= j < out@.len() ==> 0 <= #[trigger] origin[j] < i && out@[j].tag@ == src[origin[j]].tag@,
            forall|j: int, m: int| 0 <= j < m < out@.len() ==> #[trigger] origin[j] < #[trigger] origin[m],
            forall|j: int| 0 <= j < out@.len() ==> (#[trigger] out@[j]).stems@.len() > 0,
            forall|k: Seq<char>, x: Seq<char>| bucket_has(out@, k, x) <==> (bucket_has(src.subrange(0, i as int), k, x) && x != stem@),
        decreases src.len() - i,
    {
        let f = without(&tags[i].stems, stem);
        let ghost old_out = out@;
        let ghost bi = src[i as int];
        assert(src.subrange(0, i + 1) =~= src.subrange(0, i as int).push(bi));
        if f.len() > 0 {
            let nb = TagBucket { tag: tags[i].tag.clone(), stems: f };
            out.push(nb);
            proof { origin = origin.push(i as int); }
            assert forall|k: Seq<char>, x: Seq<char>| bucket_has(out@, k, x) <==> (bucket_has(src.subrange(0, i + 1), k, x) && x != stem@) by {
                lemma_bucket_has_push(old_out, nb, k, x);
                lemma_bucket_has_push(src.subrange(0, i as int), bi, k, x);
            }
        } else {
            assert forall|k: Seq<char>, x: Seq<char>| bucket_has(out@, k, x) <==> (bucket_has(src.subrange(0, i + 1), k, x) && x != stem@) by {
                lemma_bucket_has_push(src.subrange(0, i as int), bi, k, x);
                if string_views(bi.stems@).contains(x) && x != stem@ {
                    assert(string_views(f@).contains(x));
                }
            }
        }
        i = i + 1;
    }
    assert(src.subrange(0, src.len() as int) =~= src);
    assert forall|a: int, b: int| 0 <= a < out@.len() && 0 <= b < out@.len() && a != b implies (#[trigger] out@[a]).tag@ != (#[trigger] out@[b]).tag@ by {
        if a < b {
            assert(origin[a] < origin[b]);
        } else {
            assert(origin[b] < origin[a]);
        }
    }
    *tags = out;
}

/// Adds the stem of `n` to the bucket of each of its lowercased tags.
fn index_note(tags: &mut Vec<TagBucket>, n: &Note)
    requires
        buckets_ok(old(tags)@),
    ensures
        buckets_ok(final(tags)@),
        forall|k: Seq<char>, x: Seq<char>| bucket_has(final(tags)@, k, x) <==> (bucket_has(old(tags)@, k, x) || (x == n.stem_v() && note_has_key(*n, k))),
{
    let ghost start = tags@;
    let stem = String::from_str(n.filename_stem());
    let nt = n.tags();
    let mut j: usize = 0;
    while j < nt.len()
        invariant
            j <= nt@.len(),
            string_views(nt@) == n.tags_v(),
            stem@ == n.stem_v(),
            buckets_ok(tags@),
            forall|k: Seq<char>, x: Seq<char>| bucket_has(tags@, k, x) <==> (bucket_has(start, k, x) || (x == n.stem_v() && exists|t: int| 0 <= t < j && lower_of(#[trigger] n.tags_v()[t]) == k)),
        decreases nt@.len() - j,
    {
        let key = lowercase(nt[j].as_str());
        assert(nt@[j as int]@ == n.tags_v()[j as int]);
        let ghost before = tags@;
        let ghost kk = key@;
        assert(kk == lower_of(n.tags_v()[j as int]));
        assert(forall|k: Seq<char>, x: Seq<char>| bucket_has(before, k, x) <==> (bucket_has(start, k, x) || (x == n.stem_v() && exists|t: int| 0 <= t < j && lower_of(#[trigger] n.tags_v()[t]) == k)));
        let mut b: usize = 0;
        let mut found = false;
        while b < tags.len() && !found
            invariant
                tags@ == before,
                b <= tags@.len(),
                found ==> b < tags@.len() && tags@[b as int].tag@ == key@,
                forall|t: int| 0 <= t < b ==> (#[trigger] tags@[t]).tag@ != key@,
            decreases tags@.len() - b + (if found { 0int } else { 1int }),
        {
            if tags[b].tag == key {
                found = true;
            } else {
                b = b + 1;
            }
        }
        if found {
            let mut bk = tags.remove(b);
            let ghost old_stems = string_views(bk.stems@);
            bk.stems.push(stem.clone());
            assert(string_views(bk.stems@) =~= old_stems.push(stem@));
            let ghost removed = tags@;
            tags.push(bk);
            assert forall|k: Seq<char>, x: Seq<char>| #[trigger] bucket_has(tags@, k, x) <==> (bucket_has(before, k, x) || (x == stem@ && k == kk)) by {
                lemma_bucket_has_remove(before, b as int, k, x);
                lemma_bucket_has_push(removed, bk, k, x);
                lemma_contains_push(old_stems, stem@, x);
            }
            assert(buckets_ok(tags@)) by {
                assert forall|p: int, q: int| 0 <= p < tags@.len() && 0 <= q < tags@.len() && p != q implies (#[trigger] tags@[p]).tag@ != (#[trigger] tags@[q]).tag@ by {
                    let map = |t: int| if t < removed.len() { if t < b { t } else { t + 1 } } else { b as int };
                    assert(tags@[p].tag@ == before[map(p)].tag@);
                    assert(tags@[q].tag@ == before[map(q)].tag@);
                }
                assert forall|p: int| 0 <= p < tags@.len() implies (#[trigger] tags@[p]).stems@.len() > 0 by {
                    if p < removed.len() {
                        if p < b {
                            assert(tags@[p] == before[p]);
                        } else {
                            assert(tags@[p] == before[p + 1]);
                        }
                    }
                }
            }
        } else {
            let mut st: Vec<String> = Vec::new();
            st.push(stem.clone());
            let nb = TagBucket { tag: key, stems: st };
            assert(string_views(nb.stems@) =~= seq![stem@]);
            assert(b == before.len());
            tags.push(nb);
            assert forall|k: Seq<char>, x: Seq<char>| #[trigger] bucket_has(tags@, k, x) <==> (bucket_has(before, k, x) || (x == stem@ && k == kk)) by {
                lemma_bucket_has_push(before, nb, k, x);
                lemma_contains_push(seq![], stem@, x);
                assert(seq![stem@] =~= Seq::<Seq<char>>::empty().push(stem@));
            }
        }
        assert(forall|k: Seq<char>, x: Seq<char>| #[trigger] bucket_has(tags@, k, x) <==> (bucket_has(before, k, x) || (x == stem@ && k == kk)));
        assert forall|k: Seq<char>, x: Seq<char>| bucket_has(tags@, k, x) <==> (bucket_has(start, k, x) || (x == n.stem_v() && exists|t: int| 0 <= t < j + 1 && lower_of(#[trigger] n.tags_v()[t]) == k)) by {
            assert(bucket_has(tags@, k, x) <==> (bucket_has(before, k, x) || (x == stem@ && k == kk)));
            if x == n.stem_v() && k == kk {
                assert(lower_of(n.tags_v()[j as int]) == k);
            }
            if x == n.stem_v() && (exists|t: int| 0 <= t < j + 1 && lower_of(#[trigger] n.tags_v()[t]) == k) {
                let t = choose|t: int| 0 <= t < j + 1 && lower_of(#[trigger] n.tags_v()[t]) == k;
                if t == j {
                    assert(k == kk);
                } else {
                    assert(exists|t2: int| 0 <= t2 < j && lower_of(#[trigger] n.tags_v()[t2]) == k);
                }
            }
        }
        j = j + 1;
    }
    assert(nt@.len() == n.tags_v().len());
    assert forall|k: Seq<char>, x: Seq<char>| bucket_has(tags@, k, x) <==> (bucket_has(start, k, x) || (x == n.stem_v() && note_has_key(*n, k))) by {
        if note_has_key(*n, k) {
            let t = choose|t: int| 0 <= t < n.tags_v().len() && lower_of(#[trigger] n.tags_v()[t]) == k;
            assert(exists|t2: int| 0 <= t2 < j && lower_of(#[trigger] n.tags_v()[t2]) == k);
        }
    }
}

proof fn lemma_noted_remove(notes: Seq<Note>, i: int, k: Seq<char>, x: Seq<char>)
    requires
        stems_unique(notes),
        0 <= i < notes.len(),
    ensures
        noted(notes.remove(i), k, x) <==> (noted(notes, k, x) && x != notes[i].stem_v()),
{
    let r = notes.remove(i);
    if noted(notes, k, x) && x != notes[i].stem_v() {
        let w = choose|w: int| 0 <= w < notes.len() && (#[trigger] notes[w]).stem_v() == x && note_has_key(notes[w], k);
        if w < i {
            assert(r[w] == notes[w]);
        } else {
            assert(r[w - 1] == notes[w]);
        }
    }
    if noted(r, k, x) {
        let w = choose|w: int| 0 <= w < r.len() && (#[trigger] r[w]).stem_v() == x && note_has_key(r[w], k);
        let o = if w < i { w } else { w + 1 };
        assert(r[w] == notes[o]);
        assert(o != i);
    }
}

proof fn lemma_noted_update(notes: Seq<Note>, i: int, n: Note, k: Seq<char>, x: Seq<char>)
    requires
        stems_unique(notes),
        0 <= i < notes.len(),
        n.stem_v() == notes[i].stem_v(),
    ensures
        noted(notes.update(i, n), k, x) <==> ((noted(notes, k, x) && x != n.stem_v()) || (x == n.stem_v() && note_has_key(n, k))),
{
    let u = notes.update(i, n);
    if noted(notes, k, x) && x != n.stem_v() {
        let w = choose|w: int| 0 <= w < notes.len() && (#[trigger] notes[w]).stem_v() == x && note_has_key(notes[w], k);
        assert(u[w] == notes[w]);
    }
    if x == n.stem_v() && note_has_key(n, k) {
        assert(u[i] == n);
    }
    if noted(u, k, x) {
        let w = choose|w: int| 0 <= w < u.len() && (#[trigger] u[w]).stem_v() == x && note_has_key(u[w], k);
        if w != i {
            assert(u[w] == notes[w]);
        }
    }
}

proof fn lemma_noted_push(notes: Seq<Note>, n: Note, k: Seq<char>, x: Seq<char>)
    ensures
        noted(notes.push(n), k, x) <==> (noted(notes, k, x) || (x == n.stem_v() && note_has_key(n, k))),
{
    let u = notes.push(n);
    if noted(notes, k, x) {
        let w = choose|w: int| 0 <= w < notes.len() && (#[trigger] notes[w]).stem_v() == x && note_has_key(notes[w], k);
        assert(u[w] == notes[w]);
    }
    if x == n.stem_v() && note_has_key(n, k) {
        assert(u[notes.len() as int] == n);
    }
    if noted(u, k, x) {
        let w = choose|w: int| 0 <= w < u.len() && (#[trigger] u[w]).stem_v() == x && note_has_key(u[w], k);
        if w < notes.len() {
            assert(u[w] == notes[w]);
        }
    }
}

/// Whether some note of `notes` has stem `stem`.
pub open spec fn has_stem(notes: Seq<Note>, stem: Seq<char>) -> bool {
    exists|i: int| 0 <= i < notes.len() && (#[trigger] notes[i]).stem_v() == stem
}

/// `b` is `a` after removing the note with stem `stem`: the note goes, the
/// others keep their order, and the stem leaves every tag bucket; where no
/// note has that stem, nothing changes.
pub open spec fn removed(a: Notebook, b: Notebook, stem: Seq<char>) -> bool {
    &&& if has_stem(a.notes_v(), stem) {
        exists|i: int| 0 <= i < a.notes_v().len() && (#[trigger] a.notes_v()[i]).stem_v() == stem && b.notes_v() == a.notes_v().remove(i)
    } else {
        b == a
    }
    &&& forall|k: Seq<char>, x: Seq<char>| b.indexed(k, x) <==> (a.indexed(k, x) && x != stem)
}

/// `b` is `a` with note `n` put in: in place of the note with the same stem,
/// or appended where there is none.
pub open spec fn upserted(a: Seq<Note>, b: Seq<Note>, n: Note) -> bool {
    if has_stem(a, n.stem_v()) {
        exists|i: int| 0 <= i < a.len() && (#[trigger] a[i]).stem_v() == n.stem_v() && b == a.update(i, n)
    } else {
        b == a.push(n)
    }
}

/// The stems of `notes`, in order.
pub open spec fn note_stems(notes: Seq<Note>) -> Seq<Seq<char>> {
    notes.map_values(|n: Note| n.stem_v())
}

/// The stems of `files` in order of first appearance.
pub open spec fn first_stems(files: Seq<SourceFile>) -> Seq<Seq<char>>
    decreases files.len(),
{
    if files.len() == 0 {
        seq![]
    } else {
        let prev = first_stems(files.drop_last());
        let s = source_stem(files.last());
        if prev.contains(s) {
            prev
        } else {
            prev.push(s)
        }
    }
}

/// Each of `notes` is parsed from the last of the first `i` files that has
/// its stem.
pub open spec fn sourced_last(notes: Seq<Note>, files: Seq<SourceFile>, i: int) -> bool {
    forall|j: int| 0 <= j < notes.len() ==> exists|t: int|
        0 <= t < i && parsed_from(#[trigger] notes[j], #[trigger] files[t])
            && forall|u: int| t < u < i ==> source_stem(#[trigger] files[u]) != notes[j].stem_v()
}

/// File `t` is the first of `files` whose preamble is not YAML.
pub open spec fn first_failure(files: Seq<SourceFile>, t: int) -> bool {
    &&& 0 <= t < files.len()
    &&& preamble_fails(files[t].content@)
    &&& forall|u: int| 0 <= u < t ==> !preamble_fails((#[trigger] files[u]).content@)
}

/// The stem of the note a file holds.
pub open spec fn source_stem(f: SourceFile) -> Seq<char> {
    file_stem(file_name(f.path@))
}

/// `n` is the note parsed from file `f`.
pub open spec fn parsed_from(n: Note, f: SourceFile) -> bool {
    parsed_as(n, f.content@, f.path@, f.abs_path@, f.modified, f.birth)
}

impl Notebook {
    /// The root directory the notebook was loaded from.
    pub closed spec fn root_v(&self) -> Seq<char> {
        self.root@
    }

    pub fn root(&self) -> (r: &str)
        ensures
            r@ == self.root_v(),
    {
        self.root.as_str()
    }

    /// A notebook with no notes.
    pub fn new(root: &str) -> (r: Notebook)
        ensures
            r.wf(),
            r.notes_v().len() == 0,
            r.root_v() == root@,
    {
        Notebook { root: String::from_str(root), notes: Vec::new(), tags: Vec::new() }
    }

    /// Removes the note with stem `stem`, if there is one, and its stem from
    /// the inverted index, dropping the buckets left empty.
    pub fn remove(&mut self, stem: &str)
        requires
            old(self).wf(),
        ensures
            final(self).wf(),
            final(self).root_v() == old(self).root_v(),
            removed(*old(self), *final(self), stem@),
    {
        match self.position(stem) {
            None => {},
            Some(i) => {
                let ghost old_notes = self.notes@;
                let ghost old_tags = self.tags@;
                self.notes.remove(i);
                unindex(&mut self.tags, stem);
                assert forall|k: Seq<char>, x: Seq<char>| bucket_has(self.tags@, k, x) <==> noted(self.notes@, k, x) by {
                    lemma_noted_remove(old_notes, i as int, k, x);
                }
                assert(stems_unique(self.notes@)) by {
                    assert forall|a: int, b: int| 0 <= a < self.notes@.len() && 0 <= b < self.notes@.len() && a != b implies (#[trigger] self.notes@[a]).stem_v() != (#[trigger] self.notes@[b]).stem_v() by {
                        let oa = if a < i { a } else { a + 1 };
                        let ob = if b < i { b } else { b + 1 };
                        assert(self.notes@[a] == old_notes[oa]);
                        assert(self.notes@[b] == old_notes[ob]);
                    }
                }
                assert forall|a: int| 0 <= a < self.notes@.len() implies unique_ci((#[trigger] self.notes@[a]).tags_v()) by {
                    let oa = if a < i { a } else { a + 1 };
                    assert(self.notes@[a] == old_notes[oa]);
                }
            },
        }
    }

    /// Puts `n` in: in place of the note with its stem, else at the end, and
    /// brings the inverted index along.
    fn upsert(&mut self, n: Note)
        requires
            old(self).wf(),
            unique_ci(n.tags_v()),
        ensures
            final(self).wf(),
            final(self).root_v() == old(self).root_v(),
            upserted(old(self).notes_v(), final(self).notes_v(), n),
    {
        let ghost old_notes = self.notes@;
        match self.position(n.filename_stem()) {
            Some(i) => {
                unindex(&mut self.tags, n.filename_stem());
                index_note(&mut self.tags, &n);
                self.notes.set(i, n);
                assert forall|k: Seq<char>, x: Seq<char>| bucket_has(self.tags@, k, x) <==> noted(self.notes@, k, x) by {
                    lemma_noted_update(old_notes, i as int, n, k, x);
                }
                assert(stems_unique(self.notes@)) by {
                    assert forall|a: int, b: int| 0 <= a < self.notes@.len() && 0 <= b < self.notes@.len() && a != b implies (#[trigger] self.notes@[a]).stem_v() != (#[trigger] self.notes@[b]).stem_v() by {
                        assert(self.notes@[a].stem_v() == old_notes[a].stem_v());
                        assert(self.notes@[b].stem_v() == old_notes[b].stem_v());
                    }
                }
                assert forall|a: int| 0 <= a < self.notes@.len() implies unique_ci((#[trigger] self.notes@[a]).tags_v()) by {
                    if a != i {
                        assert(self.notes@[a] == old_notes[a]);
                    }
                }
            },
            None => {
                index_note(&mut self.tags, &n);
                self.notes.push(n);
                assert forall|k: Seq<char>, x: Seq<char>| bucket_has(self.tags@, k, x) <==> noted(self.notes@, k, x) by {
                    lemma_noted_push(old_notes, n, k, x);
                }
                assert(stems_unique(self.notes@)) by {
                    assert forall|a: int, b: int| 0 <= a < self.notes@.len() && 0 <= b < self.notes@.len() && a != b implies (#[trigger] self.notes@[a]).stem_v() != (#[trigger] self.notes@[b]).stem_v() by {
                        if a < old_notes.len() {
                            assert(self.notes@[a] == old_notes[a]);
                        }
                        if b < old_notes.len() {
                            assert(self.notes@[b] == old_notes[b]);
                        }
                    }
                }
                assert forall|a: int| 0 <= a < self.notes@.len() implies unique_ci((#[trigger] self.notes@[a]).tags_v()) by {
                    if a < old_notes.len() {
                        assert(self.notes@[a] == old_notes[a]);
                    }
                }
            },
        }
    }

    /// Builds the index of a notebook from its files, in the order given. The
    /// root must hold the marker directory (`has_marker`). A file whose stem
    /// was seen before replaces the earlier note in place. Fails on the first
    /// file whose preamble is not YAML.
    pub fn load(root: &str, has_marker: bool, files: Vec<SourceFile>) -> (r: Result<Notebook, Error>)
        ensures
            !has_marker ==> (r matches Err(e) && e.is_not_a_notebook(root@)),
            has_marker ==> (r is Ok <==> forall|i: int| 0 <= i < files@.len() ==> !preamble_fails((#[trigger] files@[i]).content@)),
            has_marker ==> (r matches Err(e) ==> exists|t: int| first_failure(files@, t) && e.is_yaml_for(files@[t].abs_path@)),
            r matches Ok(nb) ==> {
                &&& nb.wf()
                &&& nb.root_v() == root@
                &&& note_stems(nb.notes_v()) == first_stems(files@)
                &&& sourced_last(nb.notes_v(), files@, files@.len() as int)
            },
    {
        if !has_marker {
            return Err(Error::NotANotebook(String::from_str(root)));
        }
        let mut nb = Notebook::new(root);
        let mut i: usize = 0;
        assert(note_stems(nb.notes_v()) =~= first_stems(files@.subrange(0, 0)));
        while i < files.len()
            invariant
                has_marker,
                i <= files@.len(),
                nb.wf(),
                nb.root_v() == root@,
                forall|t: int| 0 <= t < i ==> !preamble_fails((#[trigger] files@[t]).content@),
                note_stems(nb.notes_v()) == first_stems(files@.subrange(0, i as int)),
                sourced_last(nb.notes_v(), files@, i as int),
            decreases files@.len() - i,
        {
            let f = &files[i];
            let n = match parse_note(f.content.as_str(), f.path.as_str(), f.abs_path.as_str(), f.modified, f.birth) {
                Ok(n) => n,
                Err(e) => {
                    assert(first_failure(files@, i as int));
                    return Err(e);
                },
            };
            let ghost before = nb.notes_v();
            assert(stems_unique(before));
            let ghost gn = n;
            assert(parsed_from(gn, files@[i as int]));
            nb.upsert(n);
            proof { lemma_upsert_keeps(before, nb.notes_v(), gn, files@, i as int); }
            i = i + 1;
        }
        assert(files@.subrange(0, files@.len() as int) =~= files@);
        Ok(nb)
    }

    /// Reloads the note with stem `stem` from `file`, the caller's fresh read
    /// of it (`None` where no file has that stem, or the file's stem is another:
    /// then nothing changes). The note is replaced in place, or appended when
    /// the stem is new. Where the preamble is not YAML, nothing changes and the
    /// error names the file.
    pub fn reload(&mut self, stem: &str, file: Option<SourceFile>) -> (r: Result<(), Error>)
        requires
            old(self).wf(),
        ensures
            final(self).wf(),
            match file {
                Some(f) => if source_stem(f) != stem@ {
                    r is Ok && *final(self) == *old(self)
                } else if preamble_fails(f.content@) {
                    (r matches Err(e) && e.is_yaml_for(f.abs_path@)) && *final(self) == *old(self)
                } else {
                    r is Ok && exists|n: Note| parsed_from(n, f) && upserted(old(self).notes_v(), final(self).notes_v(), n)
                },
                None => r is Ok && *final(self) == *old(self),
            },
    {
        match file {
            None => Ok(()),
            Some(f) => {
                let st = path_stem(f.path.as_str());
                let want = chars_of(stem);
                if !crate::text::same_chars(&st, &want) {
                    return Ok(());
                }
                match parse_note(f.content.as_str(), f.path.as_str(), f.abs_path.as_str(), f.modified, f.birth) {
                    Ok(n) => {
                        let ghost gn = n;
                        self.upsert(n);
                        assert(parsed_from(gn, f) && upserted(old(self).notes_v(), self.notes_v(), gn));
                        Ok(())
                    },
                    Err(e) => Err(e),
                }
            },
        }
    }
}

proof fn lemma_upsert_keeps(before: Seq<Note>, after: Seq<Note>, n: Note, files: Seq<SourceFile>, i: int)
    requires
        0 <= i < files.len(),
        parsed_from(n, files[i]),
        n.stem_v() == source_stem(files[i]),
        upserted(before, after, n),
        stems_unique(before),
        note_stems(before) == first_stems(files.subrange(0, i)),
        sourced_last(before, files, i),
    ensures
        note_stems(after) == first_stems(files.subrange(0, i + 1)),
        sourced_last(after, files, i + 1),
{
    let s = n.stem_v();
    let prev = files.subrange(0, i);
    assert(files.subrange(0, i + 1).drop_last() =~= prev);
    assert(files.subrange(0, i + 1).last() == files[i]);
    assert(has_stem(before, s) <==> note_stems(before).contains(s)) by {
        if has_stem(before, s) {
            let w = choose|w: int| 0 <= w < before.len() && (#[trigger] before[w]).stem_v() == s;
            assert(note_stems(before)[w] == s);
        }
        if note_stems(before).contains(s) {
            let w = choose|w: int| 0 <= w < note_stems(before).len() && note_stems(before)[w] == s;
            assert(before[w].stem_v() == s);
        }
    }
    if has_stem(before, s) {
        let p = choose|p: int| 0 <= p < before.len() && (#[trigger] before[p]).stem_v() == s && after == before.update(p, n);
        assert(note_stems(after) =~= note_stems(before));
        assert forall|j: int| 0 <= j < after.len() implies exists|t: int|
            0 <= t < i + 1 && parsed_from(#[trigger] after[j], #[trigger] files[t])
                && forall|u: int| t < u < i + 1 ==> source_stem(#[trigger] files[u]) != after[j].stem_v() by {
            if j == p {
                assert(parsed_from(after[j], files[i]));
            } else {
                assert(after[j] == before[j]);
                assert(before[j].stem_v() != s);
                let t = choose|t: int| 0 <= t < i && parsed_from(#[trigger] before[j], #[trigger] files[t])
                    && forall|u: int| t < u < i ==> source_stem(#[trigger] files[u]) != before[j].stem_v();
                assert(parsed_from(after[j], files[t]));
            }
        }
    } else {
        assert(after == before.push(n));
        assert(note_stems(after) =~= note_stems(before).push(s));
        assert forall|j: int| 0 <= j < after.len() implies exists|t: int|
            0 <= t < i + 1 && parsed_from(#[trigger] after[j], #[trigger] files[t])
                && forall|u: int| t < u < i + 1 ==> source_stem(#[trigger] files[u]) != after[j].stem_v() by {
            if j == before.len() {
                assert(after[j] == n);
                assert(parsed_from(after[j], files[i]));
            } else {
                assert(after[j] == before[j]);
                assert(before[j].stem_v() != s);
                let t = choose|t: int| 0 <= t < i && parsed_from(#[trigger] before[j], #[trigger] files[t])
                    && forall|u: int| t < u < i ==> source_stem(#[trigger] files[u]) != before[j].stem_v();
                assert(parsed_from(after[j], files[t]));
            }
        }
    }
}

/// Reloading a note from its file unchanged but for a modification time no
/// earlier than before (what `reload` does: the note parsed from the new read
/// put in) leaves the note in its place, equal to the old one in every field
/// but its times; the modification time does not move back, and the creation
/// time changes only where it falls back to the modification time.
pub proof fn lemma_reload_unchanged(a: Notebook, b: Seq<Note>, i: int, f1: SourceFile, f2: SourceFile, n: Note)
    requires
        a.wf(),
        0 <= i < a.notes_v().len(),
        parsed_from(a.notes_v()[i], f1),
        f2.path@ == f1.path@,
        f2.abs_path@ == f1.abs_path@,
        f2.content@ == f1.content@,
        f2.birth == f1.birth,
        f1.modified <= f2.modified,
        parsed_from(n, f2),
        upserted(a.notes_v(), b, n),
    ensures
        b.len() == a.notes_v().len(),
        b[i] == n,
        forall|j: int| 0 <= j < b.len() && j != i ==> b[j] == a.notes_v()[j],
        n.same_content(&a.notes_v()[i]),
        a.notes_v()[i].modified_v() <= n.modified_v(),
        n.created_v() != a.notes_v()[i].created_v() ==> (a.notes_v()[i].created_v() == f1.modified && n.created_v() == f2.modified),
{
    let old = a.notes_v()[i];
    crate::parse::lemma_reparse(n, old, f1.content@, f1.path@, f1.abs_path@, f2.modified, f1.modified, f1.birth);
    assert(has_stem(a.notes_v(), n.stem_v()));
    let p = choose|p: int| 0 <= p < a.notes_v().len() && (#[trigger] a.notes_v()[p]).stem_v() == n.stem_v() && b == a.notes_v().update(p, n);
    if p != i {
        a.lemma_stems_unique(p, i);
    }
}

/// Removing the same stem twice: the second removal changes nothing.
pub proof fn lemma_remove_idempotent(a: Notebook, b: Notebook, c: Notebook, stem: Seq<char>)
    requires
        a.wf(),
        removed(a, b, stem),
        removed(b, c, stem),
    ensures
        c == b,
{
    if has_stem(a.notes_v(), stem) {
        let i = choose|i: int| 0 <= i < a.notes_v().len() && (#[trigger] a.notes_v()[i]).stem_v() == stem && b.notes_v() == a.notes_v().remove(i);
        assert(!has_stem(b.notes_v(), stem)) by {
            if has_stem(b.notes_v(), stem) {
                let w = choose|w: int| 0 <= w < b.notes_v().len() && (#[trigger] b.notes_v()[w]).stem_v() == stem;
                let o = if w < i { w } else { w + 1 };
                assert(b.notes_v()[w] == a.notes_v()[o]);
                a.lemma_stems_unique(i, o);
            }
        }
    }
}

/// The inverted index is exactly the inverse of the notes' lowercased tags:
/// it maps `k` to a list holding `x` if and only if the note with stem `x`
/// carries a tag that lowercases to `k`.
pub proof fn lemma_index_is_inverse(nb: Notebook)
    requires
        nb.wf(),
    ensures
        forall|k: Seq<char>, x: Seq<char>| nb.indexed(k, x) <==> noted(nb.notes_v(), k, x),
{
}

/// Every note of a well-formed notebook has tags that are distinct once lowercased.
pub proof fn lemma_tags_unique(nb: Notebook, i: int)
    requires
        nb.wf(),
        0 <= i < nb.notes_v().len(),
    ensures
        unique_ci(nb.notes_v()[i].tags_v()),
{
}

impl Notebook {
    proof fn lemma_stems_unique(&self, i: int, j: int)
        requires
            self.wf(),
            0 <= i < self.notes@.len(),
            0 <= j < self.notes@.len(),
            i != j,
        ensures
            self.notes@[i].stem_v() != self.notes@[j].stem_v(),
    {
    }
}

/// The score with which a title matches a fuzzy query, if it matches.
pub uninterp spec fn fuzzy_score(query: Seq<char>, title: Seq<char>) -> Option<u32>;

/// Relies on nucleo's `Pattern::parse` (case ignored, smart normalization)
/// and `Pattern::score` under the default matcher configuration: the score of
/// the title against the query, or `None` where it does not match.
#[verifier::external_body]
fn title_score(query: &str, title: &str) -> (r: Option<u32>)
    ensures
        r == fuzzy_score(query@, title@),
{
    let mut matcher = nucleo::Matcher::new(nucleo::Config::DEFAULT);
    let pattern = nucleo::pattern::Pattern::parse(query, nucleo::pattern::CaseMatching::Ignore, nucleo::pattern::Normalization::Smart);
    let mut buf = Vec::new();
    pattern.score(nucleo::Utf32Str::new(title, &mut buf), &mut matcher)
}

/// Notes whose title matches the query.
pub open spec fn title_matches(q: Seq<char>) -> spec_fn(Note) -> bool {
    |n: Note| fuzzy_score(q, n.title_v()) is Some
}

/// The score of a note's title against the query (0 where it does not match).
pub open spec fn score_of(q: Seq<char>, n: Note) -> u32 {
    match fuzzy_score(q, n.title_v()) {
        Some(s) => s,
        None => 0,
    }
}

pub open spec fn firsts(s: Seq<(u32, &Note)>) -> Seq<Note> {
    s.map_values(|x: (u32, &Note)| *x.1)
}

impl Notebook {
    /// Fuzzy search of titles: with an empty query, the notes `all_notes`
    /// lists; else those of them whose title matches, by descending score.
    #[verifier::rlimit(50)]
    pub fn search_titles(&self, query: &str, with_tag: Option<&str>) -> (r: Vec<&Note>)
        requires
            self.wf(),
        ensures
            query@.len() == 0 ==> derefs(r@) == listed(self.notes_v(), opt_str(with_tag)),
            query@.len() > 0 ==> derefs(r@).to_multiset() == listed(self.notes_v(), opt_str(with_tag)).filter(title_matches(query@)).to_multiset(),
            query@.len() > 0 ==> forall|a: int, b: int| 0 <= a < b < r@.len() ==> score_of(query@, *r@[a]) >= score_of(query@, *r@[b]),
    {
        let cands = self.all_notes(with_tag);
        if query.is_empty() {
            return cands;
        }
        let ghost c = derefs(cands@);
        let ghost p = title_matches(query@);
        let mut out: Vec<(u32, &Note)> = Vec::new();
        let mut i: usize = 0;
        assert(firsts(out@).to_multiset() =~= c.subrange(0, 0).filter(p).to_multiset()) by {
            assert(c.subrange(0, 0).filter(p) =~= seq![]) by {
                reveal(Seq::filter);
            }
            assert(firsts(out@) =~= seq![]);
        }
        while i < cands.len()
            invariant
                c == derefs(cands@),
                p == title_matches(query@),
                i <= cands@.len(),
                firsts(out@).to_multiset() == c.subrange(0, i as int).filter(p).to_multiset(),
                forall|a: int| 0 <= a < out@.len() ==> (#[trigger] out@[a]).0 == score_of(query@, *out@[a].1),
                forall|a: int, b: int| 0 <= a < b < out@.len() ==> (#[trigger] out@[a]).0 >= (#[trigger] out@[b]).0,
            decreases cands@.len() - i,
        {
            let n = cands[i];
            let ghost pre = c.subrange(0, i as int);
            assert(c.subrange(0, i + 1) =~= pre.push(*n));
            proof { pre.lemma_filter_push(*n, p); }
            match title_score(query, n.title()) {
                Some(sc) => {
                    let mut k: usize = 0;
                    while k < out.len() && out[k].0 >= sc
                        invariant
                            k <= out@.len(),
                            forall|a: int| 0 <= a < k ==> (#[trigger] out@[a]).0 >= sc,
                        decreases out@.len() - k,
                    {
                        k = k + 1;
                    }
                    let ghost old_out = out@;
                    out.insert(k, (sc, n));
                    proof {
                        old_out.insert_ensures(k as int, (sc, n));
                        assert(firsts(out@) =~= firsts(old_out).insert(k as int, *n));
                        let t = firsts(out@);
                        assert(t.remove(k as int) =~= firsts(old_out));
                        t.to_multiset_ensures();
                        pre.filter(p).to_multiset_ensures();
                        assert(t.to_multiset() =~= firsts(old_out).to_multiset().insert(*n));
                        assert forall|a: int, b: int| 0 <= a < b < out@.len() implies (#[trigger] out@[a]).0 >= (#[trigger] out@[b]).0 by {
                            if a < k && b > k {
                                assert(out@[b] == old_out[b - 1]);
                            } else if a == k && b > k {
                                assert(out@[b] == old_out[b - 1]);
                                if k < old_out.len() {
                                    assert(old_out[k as int].0 < sc);
                                    if b - 1 > k {
                                        assert(old_out[k as int].0 >= old_out[b - 1].0);
                                    }
                                }
                            } else if b == k {
                                assert(out@[a] == old_out[a]);
                            } else if b < k {
                                assert(out@[a] == old_out[a]);
                                assert(out@[b] == old_out[b]);
                            } else {
                                assert(out@[a] == old_out[a - 1]);
                                assert(out@[b] == old_out[b - 1]);
                            }
                        }
                        assert forall|a: int| 0 <= a < out@.len() implies (#[trigger] out@[a]).0 == score_of(query@, *out@[a].1) by {
                            if a < k {
                                assert(out@[a] == old_out[a]);
                            } else if a > k {
                                assert(out@[a] == old_out[a - 1]);
                            }
                        }
                    }
                },
                None => {},
            }
            i = i + 1;
        }
        assert(c.subrange(0, cands@.len() as int) =~= c);
        let mut res: Vec<&Note> = Vec::new();
        let mut j: usize = 0;
        while j < out.len()
            invariant
                j <= out@.len(),
                derefs(res@) == firsts(out@).subrange(0, j as int),
                res@.len() == j,
                forall|a: int| 0 <= a < j ==> res@[a] == out@[a].1,
            decreases out@.len() - j,
        {
            res.push(out[j].1);
            j = j + 1;
            assert(derefs(res@) =~= firsts(out@).subrange(0, j as int));
        }
        assert(firsts(out@).subrange(0, out@.len() as int) =~= firsts(out@));
        res
    }
}

/// The notes carrying both `a` and `b` are exactly those that listing by
/// `a` and listing by `b` have in common, in index order.
pub proof fn lemma_two_tags_intersect(notes: Seq<Note>, a: Seq<char>, b: Seq<char>)
    ensures
        notes.filter(has_all(seq![a, b])) == notes.filter(has_tag(a)).filter(has_tag(b)),
    decreases notes.len(),
{
    let pab = has_all(seq![a, b]);
    let pa = has_tag(a);
    let pb = has_tag(b);
    if notes.len() == 0 {
        reveal(Seq::filter);
        assert(notes.filter(pa) =~= notes);
    } else {
        let rest = notes.drop_last();
        let l = notes.last();
        lemma_two_tags_intersect(rest, a, b);
        assert(notes =~= rest.push(l));
        rest.lemma_filter_push(l, pab);
        rest.lemma_filter_push(l, pa);
        rest.filter(pa).lemma_filter_push(l, pb);
        assert(pab(l) == (l.has_v(a) && l.has_v(b))) by {
            assert(seq![a, b][0] == a);
            assert(seq![a, b][1] == b);
        }
    }
}

/// The notes that `stems` resolve to, in order: each stem that some note
/// has (and, where `public_only`, whose note carries the public tag) gives
/// that note.
pub open spec fn resolves(notes: Seq<Note>, stems: Seq<Seq<char>>, public_only: bool, r: Seq<Note>) -> bool
    decreases stems.len(),
{
    if stems.len() == 0 {
        r.len() == 0
    } else {
        let s = stems.last();
        if exists|i: int| 0 <= i < notes.len() && (#[trigger] notes[i]).stem_v() == s && (!public_only || notes[i].has_v(public_tag())) {
            r.len() > 0 && r.last().stem_v() == s && notes.contains(r.last()) && resolves(notes, stems.drop_last(), public_only, r.drop_last())
        } else {
            resolves(notes, stems.drop_last(), public_only, r)
        }
    }
}

impl Notebook {
    /// The lowercased tags of the inverted index.
    pub fn all_tags(&self) -> (r: Vec<String>)
        requires
            self.wf(),
        ensures
            forall|k: Seq<char>| string_views(r@).contains(k) <==> exists|x: Seq<char>| noted(self.notes_v(), k, x),
    {
        let mut out: Vec<String> = Vec::new();
        let mut i: usize = 0;
        while i < self.tags.len()
            invariant
                i <= self.tags@.len(),
                out@.len() == i,
                forall|j: int| 0 <= j < i ==> (#[trigger] out@[j])@ == self.tags@[j].tag@,
            decreases self.tags@.len() - i,
        {
            out.push(String::from_str(self.tags[i].tag.as_str()));
            i = i + 1;
        }
        assert forall|k: Seq<char>| string_views(out@).contains(k) <==> exists|x: Seq<char>| noted(self.notes_v(), k, x) by {
            if string_views(out@).contains(k) {
                let j = choose|j: int| 0 <= j < out@.len() && string_views(out@)[j] == k;
                let x = self.tags@[j].stems@[0]@;
                assert(string_views(self.tags@[j].stems@)[0] == x);
                assert(bucket_has(self.tags@, k, x));
            }
            if exists|x: Seq<char>| noted(self.notes_v(), k, x) {
                let x = choose|x: Seq<char>| noted(self.notes_v(), k, x);
                assert(bucket_has(self.tags@, k, x));
                let j = choose|j: int| 0 <= j < self.tags@.len() && (#[trigger] self.tags@[j]).tag@ == k && string_views(self.tags@[j].stems@).contains(x);
                assert(string_views(out@)[j] == k);
            }
        }
        out
    }

    /// The notes that `stems` name, in the order of `stems`; unknown stems
    /// are skipped, and where `public_only`, so are notes without the public tag.
    pub fn outgoing_links(&self, stems: &[String], public_only: bool) -> (r: Vec<&Note>)
        requires
            self.wf(),
        ensures
            resolves(self.notes_v(), string_views(stems@), public_only, derefs(r@)),
    {
        let public = "public";
        proof { reveal_strlit("public"); }
        assert(public@ =~= public_tag());
        let ghost sv = string_views(stems@);
        let mut out: Vec<&Note> = Vec::new();
        let mut i: usize = 0;
        assert(resolves(self.notes@, sv.subrange(0, 0), public_only, derefs(out@)));
        while i < stems.len()
            invariant
                self.wf(),
                i <= stems@.len(),
                sv == string_views(stems@),
                public@ == public_tag(),
                resolves(self.notes@, sv.subrange(0, i as int), public_only, derefs(out@)),
            decreases stems@.len() - i,
        {
            let ghost pre = sv.subrange(0, i as int);
            let ghost old_out = derefs(out@);
            assert(sv.subrange(0, i + 1).drop_last() =~= pre);
            assert(sv.subrange(0, i + 1).last() == stems@[i as int]@);
            match self.position(stems[i].as_str()) {
                Some(p) => {
                    let n = &self.notes[p];
                    if !public_only || n.has(public) {
                        out.push(n);
                        assert(derefs(out@) =~= old_out.push(self.notes@[p as int]));
                        assert(derefs(out@).drop_last() =~= old_out);
                        assert(self.notes@.contains(self.notes@[p as int]));
                    } else {
                        assert forall|j: int| 0 <= j < self.notes@.len() && (#[trigger] self.notes@[j]).stem_v() == stems@[i as int]@ implies !(!public_only || self.notes@[j].has_v(public_tag())) by {
                            if j != p {
                                self.lemma_stems_unique(j, p as int);
                            }
                        }
                    }
                },
                None => {},
            }
            i = i + 1;
        }
        assert(sv.subrange(0, stems@.len() as int) =~= sv);
        out
    }
}

/// Whether no component of a `/`-separated path starts with `.`.
pub open spec fn hidden_free(p: Seq<char>) -> bool {
    forall|i: int| 0 <= i < p.len() && #[trigger] p[i] == '.' ==> !(i == 0 || p[i - 1] == '/')
}

/// Whether a path names a note file: no hidden component, and a file name
/// with the extension `md`.
pub open spec fn is_note_path(p: Seq<char>) -> bool {
    let n = file_name(p);
    hidden_free(p) && n.len() > 3 && n.subrange(n.len() - 3, n.len() as int) == seq!['.', 'm', 'd']
}

/// The order of a character in paths: the separator before all others.
pub open spec fn path_key(c: char) -> int {
    if c == '/' {
        0
    } else {
        (c as u32) as int + 1
    }
}

/// Paths ordered component by component (the separator sorts first).
pub open spec fn path_le(a: Seq<char>, b: Seq<char>) -> bool
    decreases a.len(),
{
    if a.len() == 0 {
        true
    } else if b.len() == 0 {
        false
    } else if path_key(a[0]) != path_key(b[0]) {
        path_key(a[0]) < path_key(b[0])
    } else {
        path_le(a.drop_first(), b.drop_first())
    }
}

proof fn lemma_path_le_total(a: Seq<char>, b: Seq<char>)
    ensures
        path_le(a, b) || path_le(b, a),
    decreases a.len(),
{
    if a.len() > 0 && b.len() > 0 && path_key(a[0]) == path_key(b[0]) {
        lemma_path_le_total(a.drop_first(), b.drop_first());
    }
}

fn path_le_exec(a: &Vec<char>, b: &Vec<char>) -> (r: bool)
    ensures
        r == path_le(a@, b@),
{
    let mut i: usize = 0;
    assert(a@.subrange(0, a@.len() as int) =~= a@);
    assert(b@.subrange(0, b@.len() as int) =~= b@);
    while i < a.len() && i < b.len()
        invariant
            i <= a@.len(),
            i <= b@.len(),
            path_le(a@, b@) == path_le(a@.subrange(i as int, a@.len() as int), b@.subrange(i as int, b@.len() as int)),
        decreases a@.len() - i,
    {
        let ca: u32 = a[i] as u32;
        let cb: u32 = b[i] as u32;
        let ka: u64 = if a[i] == '/' { 0 } else { ca as u64 + 1 };
        let kb: u64 = if b[i] == '/' { 0 } else { cb as u64 + 1 };
        assert(ka == path_key(a@[i as int]) && kb == path_key(b@[i as int]));
        let ghost sa = a@.subrange(i as int, a@.len() as int);
        let ghost sb = b@.subrange(i as int, b@.len() as int);
        assert(sa[0] == a@[i as int] && sb[0] == b@[i as int]);
        if ka != kb {
            return ka < kb;
        }
        assert(sa.drop_first() =~= a@.subrange(i + 1, a@.len() as int));
        assert(sb.drop_first() =~= b@.subrange(i + 1, b@.len() as int));
        i = i + 1;
    }
    i == a.len()
}

fn note_path(p: &Vec<char>) -> (r: bool)
    ensures
        r == is_note_path(p@),
{
    let mut i: usize = 0;
    while i < p.len()
        invariant
            i <= p@.len(),
            forall|j: int| 0 <= j < i && #[trigger] p@[j] == '.' ==> !(j == 0 || p@[j - 1] == '/'),
        decreases p@.len() - i,
    {
        if p[i] == '.' && (i == 0 || p[i - 1] == '/') {
            return false;
        }
        i = i + 1;
    }
    let slash = crate::parse::after_last_of(p, '/');
    let name = crate::text::slice_of(p, slash, p.len());
    if name.len() <= 3 {
        return false;
    }
    let ext: Vec<char> = vec!['.', 'm', 'd'];
    assert(ext@ =~= seq!['.', 'm', 'd']);
    let r = crate::text::occurs(&name, name.len() - 3, &ext);
    assert(r == (name@.subrange(name@.len() - 3, name@.len() as int) == seq!['.', 'm', 'd']));
    r
}

/// The note files among the paths that a walk of the root found (relative,
/// `/`-separated): those without hidden components and with the `md`
/// extension, sorted component by component.
#[verifier::rlimit(50)]
pub fn discover_md_files(paths: Vec<String>) -> (r: Vec<String>)
    ensures
        string_views(r@).to_multiset() == string_views(paths@).filter(|p: Seq<char>| is_note_path(p)).to_multiset(),
        forall|i: int| 0 <= i < r@.len() - 1 ==> path_le(#[trigger] r@[i]@, r@[i + 1]@),
{
    let ghost sv = string_views(paths@);
    let ghost pred = |p: Seq<char>| is_note_path(p);
    let mut out: Vec<String> = Vec::new();
    let mut i: usize = 0;
    assert(string_views(out@).to_multiset() =~= sv.subrange(0, 0).filter(pred).to_multiset()) by {
        assert(sv.subrange(0, 0).filter(pred) =~= seq![]) by {
            reveal(Seq::filter);
        }
        assert(string_views(out@) =~= seq![]);
    }
    while i < paths.len()
        invariant
            i <= paths@.len(),
            sv == string_views(paths@),
            pred == (|p: Seq<char>| is_note_path(p)),
            string_views(out@).to_multiset() == sv.subrange(0, i as int).filter(pred).to_multiset(),
            forall|a: int| 0 <= a < out@.len() - 1 ==> path_le(#[trigger] out@[a]@, out@[a + 1]@),
        decreases paths@.len() - i,
    {
        let ghost pre = sv.subrange(0, i as int);
        let x = chars_of(paths[i].as_str());
        assert(sv.subrange(0, i + 1) =~= pre.push(x@));
        proof { pre.lemma_filter_push(x@, pred); }
        if note_path(&x) {
            let mut k: usize = 0;
            let mut stop = false;
            while k < out.len() && !stop
                invariant
                    k <= out@.len(),
                    k > 0 ==> path_le(out@[k - 1]@, x@),
                    stop ==> k < out@.len() && !path_le(out@[k as int]@, x@),
                decreases out@.len() - k + (if stop { 0int } else { 1int }),
            {
                let y = chars_of(out[k].as_str());
                if path_le_exec(&y, &x) {
                    k = k + 1;
                } else {
                    stop = true;
                }
            }
            let ghost old_out = out@;
            let xs = String::from_str(paths[i].as_str());
            out.insert(k, xs);
            proof {
                old_out.insert_ensures(k as int, xs);
                let t = string_views(out@);
                assert(t =~= string_views(old_out).insert(k as int, x@));
                assert(t.remove(k as int) =~= string_views(old_out));
                t.to_multiset_ensures();
                pre.filter(pred).to_multiset_ensures();
                assert(t.to_multiset() =~= string_views(old_out).to_multiset().insert(x@));
                if k < old_out.len() {
                    lemma_path_le_total(old_out[k as int]@, x@);
                }
                assert forall|a: int| 0 <= a < out@.len() - 1 implies path_le(#[trigger] out@[a]@, out@[a + 1]@) by {
                    if a + 1 < k {
                        assert(out@[a] == old_out[a] && out@[a + 1] == old_out[a + 1]);
                    } else if a + 1 == k {
                        assert(out@[a] == old_out[a]);
                    } else if a == k {
                        assert(out@[a + 1] == old_out[a]);
                    } else {
                        assert(out@[a] == old_out[a - 1] && out@[a + 1] == old_out[a]);
                    }
                }
            }
        }
        i = i + 1;
    }
    assert(sv.subrange(0, paths@.len() as int) =~= sv);
    out
}

impl Notebook {
    /// The notes that carry `tag` (compared case-insensitively), most recently
    /// modified first.
    #[verifier::rlimit(50)]
    pub fn search_tag(&self, tag: &str) -> (r: Vec<&Note>)
        requires
            self.wf(),
        ensures
            derefs(r@).to_multiset() == self.notes_v().filter(has_tag(tag@)).to_multiset(),
            forall|a: int, b: int| 0 <= a < b < r@.len() ==> r@[a].modified_v() >= r@[b].modified_v(),
    {
        let cands = self.all_notes(Some(tag));
        let ghost c = derefs(cands@);
        let mut out: Vec<&Note> = Vec::new();
        let mut i: usize = 0;
        assert(derefs(out@) =~= c.subrange(0, 0));
        while i < cands.len()
            invariant
                c == derefs(cands@),
                i <= cands@.len(),
                derefs(out@).to_multiset() == c.subrange(0, i as int).to_multiset(),
                forall|a: int, b: int| 0 <= a < b < out@.len() ==> (#[trigger] out@[a]).modified_v() >= (#[trigger] out@[b]).modified_v(),
            decreases cands@.len() - i,
        {
            let n = cands[i];
            let m = n.modified();
            let mut k: usize = 0;
            while k < out.len() && out[k].modified() >= m
                invariant
                    k <= out@.len(),
                    forall|a: int| 0 <= a < k ==> (#[trigger] out@[a]).modified_v() >= m,
                decreases out@.len() - k,
            {
                k = k + 1;
            }
            let ghost old_out = out@;
            out.insert(k, n);
            proof {
                let pre = c.subrange(0, i as int);
                assert(c.subrange(0, i + 1) =~= pre.push(*n));
                old_out.insert_ensures(k as int, n);
                let t = derefs(out@);
                assert(t =~= derefs(old_out).insert(k as int, *n));
                assert(t.remove(k as int) =~= derefs(old_out));
                t.to_multiset_ensures();
                pre.to_multiset_ensures();
                assert(t.to_multiset() =~= derefs(old_out).to_multiset().insert(*n));
                assert forall|a: int, b: int| 0 <= a < b < out@.len() implies (#[trigger] out@[a]).modified_v() >= (#[trigger] out@[b]).modified_v() by {
                    if a < k && b > k {
                        assert(out@[b] == old_out[b - 1]);
                    } else if a == k && b > k {
                        assert(out@[b] == old_out[b - 1]);
                        if k < old_out.len() {
                            assert(old_out[k as int].modified_v() < m);
                            if b - 1 > k {
                                assert(old_out[k as int].modified_v() >= old_out[b - 1].modified_v());
                            }
                        }
                    } else if b == k {
                        assert(out@[a] == old_out[a]);
                    } else if b < k {
                        assert(out@[a] == old_out[a]);
                        assert(out@[b] == old_out[b]);
                    } else {
                        assert(out@[a] == old_out[a - 1]);
                        assert(out@[b] == old_out[b - 1]);
                    }
                }
            }
            i = i + 1;
        }
        assert(c.subrange(0, cands@.len() as int) =~= c);
        out
    }
}

/// The stem of the note file at a `/`-separated path.
pub fn path_stem(path: &str) -> (r: Vec<char>)
    ensures
        r@ == file_stem(file_name(path@)),
{
    let p = chars_of(path);
    let slash = crate::parse::after_last_of(&p, '/');
    let name = crate::text::slice_of(&p, slash, p.len());
    let dot = crate::parse::after_last_of(&name, '.');
    assert(name@.subrange(0, name@.len() as int) =~= name@);
    if dot > 1 {
        crate::text::slice_of(&name, 0, dot - 1)
    } else {
        crate::text::slice_of(&name, 0, name.len())
    }
}

/// The position of the first path whose note stem is `stem`.
pub fn find_stem(paths: &Vec<String>, stem: &str) -> (r: Option<usize>)
    ensures
        r matches Some(i) ==> i < paths@.len() && file_stem(file_name(paths@[i as int]@)) == stem@
            && forall|j: int| 0 <= j < i ==> file_stem(file_name((#[trigger] paths@[j])@)) != stem@,
        r is None ==> forall|j: int| 0 <= j < paths@.len() ==> file_stem(file_name((#[trigger] paths@[j])@)) != stem@,
{
    let want = chars_of(stem);
    let mut i: usize = 0;
    while i < paths.len()
        invariant
            i <= paths@.len(),
            want@ == stem@,
            forall|j: int| 0 <= j < i ==> file_stem(file_name((#[trigger] paths@[j])@)) != stem@,
        decreases paths@.len() - i,
    {
        let st = path_stem(paths[i].as_str());
        if crate::text::same_chars(&st, &want) {
            return Some(i);
        }
        i = i + 1;
    }
    None
}

} // verus!
