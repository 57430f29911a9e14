//! The tag rewriter: scans a document's text for reference tags of the form
//! `{{reference: {id: "IDENTIFIER", title: "TITLE"}}}` and replaces each with
//! a markdown link to the referenced document, or with an inline "not found"
//! marker when the identifier has no table entry.
//!
//! The tag grammar is fixed: whitespace (any Unicode White_Space character)
//! is tolerated after `reference:`, `id:`, `title:` and around the comma;
//! identifier and title are one or more characters excluding `"`.
//! Matches are non-overlapping and found leftmost-first.

use vstd::prelude::*;
use vstd::string::*;

use crate::paths::calculate_relative_path;
use crate::paths::rel_path;
use crate::paths::views_of;
use crate::reference_table::ReferenceTable;
use crate::reference_table::spec_lookup;
use crate::text::push_char;

verus! {

/// The whitespace characters tolerated inside a tag: the Unicode
/// White_Space set.
pub open spec fn is_ws(c: char) -> bool {
    c == ' ' || c == '\t' || c == '\n' || c == '\u{b}' || c == '\u{c}' || c == '\r' || c
        == '\u{85}' || c == '\u{a0}' || c == '\u{1680}' || c == '\u{2000}' || c == '\u{2001}' || c
        == '\u{2002}' || c == '\u{2003}' || c == '\u{2004}' || c == '\u{2005}' || c == '\u{2006}'
        || c == '\u{2007}' || c == '\u{2008}' || c == '\u{2009}' || c == '\u{200a}' || c
        == '\u{2028}' || c == '\u{2029}' || c == '\u{202f}' || c == '\u{205f}' || c == '\u{3000}'
}

/// The first position at or after `i` holding a non-whitespace character.
pub open spec fn skip_ws(t: Seq<char>, i: int) -> int
    decreases t.len() - i,
{
    if 0 <= i < t.len() && is_ws(t[i]) {
        skip_ws(t, i + 1)
    } else {
        i
    }
}

/// Whether the text holds `lit` starting at position `i`.
pub open spec fn starts_with_at(t: Seq<char>, i: int, lit: Seq<char>) -> bool {
    &&& 0 <= i
    &&& i + lit.len() <= t.len()
    &&& t.subrange(i, i + lit.len()) == lit
}

/// The first position at or after `i` holding a `"`, or the text's length
/// when there is none.
pub open spec fn find_quote(t: Seq<char>, i: int) -> int
    decreases t.len() - i,
{
    if 0 <= i < t.len() {
        if t[i] == '"' {
            i
        } else {
            find_quote(t, i + 1)
        }
    } else {
        t.len() as int
    }
}

/// A successful tag match: the captured identifier and title, and the
/// position just past the tag.
pub ghost struct TagMatch {
    pub id: Seq<char>,
    pub title: Seq<char>,
    pub end: int,
}

/// Matches the tag grammar at position `i` of the text. The grammar is
/// deterministic: each whitespace run is followed by a non-whitespace
/// delimiter, and identifier and title end at the first following `"`.
pub open spec fn match_at(t: Seq<char>, i: int) -> Option<TagMatch> {
    if !starts_with_at(t, i, "{{reference:"@) {
        None
    } else {
        let p1 = skip_ws(t, i + "{{reference:"@.len());
        if !starts_with_at(t, p1, "{id:"@) {
            None
        } else {
            let p2 = skip_ws(t, p1 + "{id:"@.len());
            if !(p2 < t.len() && t[p2] == '"') {
                None
            } else {
                let id_start = p2 + 1;
                let id_end = find_quote(t, id_start);
                if !(id_start < id_end && id_end < t.len()) {
                    None
                } else {
                    let p3 = skip_ws(t, id_end + 1);
                    if !(p3 < t.len() && t[p3] == ',') {
                        None
                    } else {
                        let p4 = skip_ws(t, p3 + 1);
                        if !starts_with_at(t, p4, "title:"@) {
                            None
                        } else {
                            let p5 = skip_ws(t, p4 + "title:"@.len());
                            if !(p5 < t.len() && t[p5] == '"') {
                                None
                            } else {
                                let title_start = p5 + 1;
                                let title_end = find_quote(t, title_start);
                                if !(title_start < title_end && title_end < t.len()) {
                                    None
                                } else if !starts_with_at(t, title_end + 1, "}}}"@) {
                                    None
                                } else {
                                    Some(
                                        TagMatch {
                                            id: t.subrange(id_start, id_end),
                                            title: t.subrange(title_start, title_end),
                                            end: title_end + 1 + "}}}"@.len(),
                                        },
                                    )
                                }
                            }
                        }
                    }
                }
            }
        }
    }
}

pub proof fn lemma_skip_ws_bounds(t: Seq<char>, i: int)
    requires
        0 <= i <= t.len(),
    ensures
        i <= skip_ws(t, i) <= t.len(),
    decreases t.len() - i,
{
    if i < t.len() && is_ws(t[i]) {
        lemma_skip_ws_bounds(t, i + 1);
    }
}

pub proof fn lemma_find_quote_bounds(t: Seq<char>, i: int)
    requires
        0 <= i <= t.len(),
    ensures
        i <= find_quote(t, i) <= t.len(),
        find_quote(t, i) < t.len() ==> t[find_quote(t, i)] == '"',
    decreases t.len() - i,
{
    if i < t.len() && t[i] != '"' {
        lemma_find_quote_bounds(t, i + 1);
    }
}

/// A successful match begins at its position and ends past it, within the
/// text.
pub proof fn lemma_match_at_bounds(t: Seq<char>, i: int)
    requires
        match_at(t, i) is Some,
    ensures
        i < match_at(t, i).unwrap().end <= t.len(),
{
    reveal_strlit("{{reference:");
    reveal_strlit("{id:");
    reveal_strlit("title:");
    reveal_strlit("}}}");
    let p1 = skip_ws(t, i + 12);
    lemma_skip_ws_bounds(t, i + 12);
    let p2 = skip_ws(t, p1 + 4);
    lemma_skip_ws_bounds(t, p1 + 4);
    let id_start = p2 + 1;
    let id_end = find_quote(t, id_start);
    lemma_find_quote_bounds(t, id_start);
    let p3 = skip_ws(t, id_end + 1);
    lemma_skip_ws_bounds(t, id_end + 1);
    let p4 = skip_ws(t, p3 + 1);
    lemma_skip_ws_bounds(t, p3 + 1);
    let p5 = skip_ws(t, p4 + 6);
    lemma_skip_ws_bounds(t, p4 + 6);
    let title_start = p5 + 1;
    lemma_find_quote_bounds(t, title_start);
}

/// Whitespace test on a single character.
fn is_ws_char(c: char) -> (r: bool)
    ensures
        r == is_ws(c),
{
    c == ' ' || c == '\t' || c == '\n' || c == '\u{b}' || c == '\u{c}' || c == '\r' || c
        == '\u{85}' || c == '\u{a0}' || c == '\u{1680}' || c == '\u{2000}' || c == '\u{2001}' || c
        == '\u{2002}' || c == '\u{2003}' || c == '\u{2004}' || c == '\u{2005}' || c == '\u{2006}'
        || c == '\u{2007}' || c == '\u{2008}' || c == '\u{2009}' || c == '\u{200a}' || c
        == '\u{2028}' || c == '\u{2029}' || c == '\u{202f}' || c == '\u{205f}' || c == '\u{3000}'
}

/// Whether the text holds `lit` starting at position `i`.
fn lit_at(t: &str, i: usize, lit: &str) -> (r: bool)
    requires
        i <= t@.len(),
    ensures
        r == starts_with_at(t@, i as int, lit@),
{
    let tlen = t.unicode_len();
    let llen = lit.unicode_len();
    if llen > tlen - i {
        return false;
    }
    let mut j: usize = 0;
    while j < llen
        invariant
            i + llen <= tlen,
            tlen == t@.len(),
            llen == lit@.len(),
            j <= llen,
            forall|m: int| 0 <= m < j ==> t@[i + m] == lit@[m],
        decreases llen - j,
    {
        if t.get_char(i + j) != lit.get_char(j) {
            proof {
                assert(t@.subrange(i as int, i + llen) != lit@) by {
                    assert(t@.subrange(i as int, i + llen)[j as int] == t@[i + j]);
                }
            }
            return false;
        }
        j = j + 1;
    }
    proof {
        assert(t@.subrange(i as int, i + llen) =~= lit@);
    }
    true
}

/// The first position at or after `i` holding a non-whitespace character.
fn skip_ws_exec(t: &str, i: usize) -> (r: usize)
    requires
        i <= t@.len(),
    ensures
        r as int == skip_ws(t@, i as int),
        i <= r <= t@.len(),
{
    let len = t.unicode_len();
    let mut j: usize = i;
    while j < len && is_ws_char(t.get_char(j))
        invariant
            i <= j <= len,
            len == t@.len(),
            skip_ws(t@, i as int) == skip_ws(t@, j as int),
        decreases len - j,
    {
        j = j + 1;
    }
    j
}

/// The first position at or after `i` holding a `"`, or the text's length.
fn find_quote_exec(t: &str, i: usize) -> (r: usize)
    requires
        i <= t@.len(),
    ensures
        r as int == find_quote(t@, i as int),
        i <= r <= t@.len(),
{
    let len = t.unicode_len();
    let mut j: usize = i;
    while j < len && t.get_char(j) != '"'
        invariant
            i <= j <= len,
            len == t@.len(),
            find_quote(t@, i as int) == find_quote(t@, j as int),
        decreases len - j,
    {
        j = j + 1;
    }
    j
}

/// Matches the tag grammar at position `i`, capturing the identifier, the
/// title and the position just past the tag.
fn try_match(t: &str, i: usize) -> (r: Option<(usize, String, String)>)
    requires
        i < t@.len(),
    ensures
        match r {
            Some(m) => match_at(t@, i as int) == Some(
                TagMatch { id: m.1@, title: m.2@, end: m.0 as int },
            ),
            None => match_at(t@, i as int) is None,
        },
{
    let len = t.unicode_len();
    proof {
        reveal_strlit("{{reference:");
        reveal_strlit("{id:");
        reveal_strlit("title:");
        reveal_strlit("}}}");
    }
    if !lit_at(t, i, "{{reference:") {
        return None;
    }
    let p1 = skip_ws_exec(t, i + 12);
    if !lit_at(t, p1, "{id:") {
        return None;
    }
    let p2 = skip_ws_exec(t, p1 + 4);
    if p2 == len {
        return None;
    }
    if t.get_char(p2) != '"' {
        return None;
    }
    let id_start = p2 + 1;
    let id_end = find_quote_exec(t, id_start);
    if id_end == id_start || id_end == len {
        return None;
    }
    let p3 = skip_ws_exec(t, id_end + 1);
    if p3 == len {
        return None;
    }
    if t.get_char(p3) != ',' {
        return None;
    }
    let p4 = skip_ws_exec(t, p3 + 1);
    if !lit_at(t, p4, "title:") {
        return None;
    }
    let p5 = skip_ws_exec(t, p4 + 6);
    if p5 == len {
        return None;
    }
    if t.get_char(p5) != '"' {
        return None;
    }
    let title_start = p5 + 1;
    let title_end = find_quote_exec(t, title_start);
    if title_end == title_start || title_end == len {
        return None;
    }
    if !lit_at(t, title_end + 1, "}}}") {
        return None;
    }
    let id = t.substring_char(id_start, id_end).to_owned();
    let title = t.substring_char(title_start, title_end).to_owned();
    Some((title_end + 4, id, title))
}

/// The text that replaces one matched tag, and the unresolved identifiers it
/// contributes: a markdown link when the identifier is in the table, the
/// title with an inline marker (and the identifier recorded as unresolved)
/// when it is not.
pub open spec fn replacement(
    doc_path: Seq<char>,
    entries: Seq<(Seq<char>, Seq<char>)>,
    id: Seq<char>,
    title: Seq<char>,
) -> (Seq<char>, Seq<Seq<char>>) {
    match spec_lookup(entries, id) {
        Some(target) => (
            "["@ + title + "]("@ + rel_path(doc_path, target) + ")"@,
            Seq::<Seq<char>>::empty(),
        ),
        None => (title + " (reference not found)"@, seq![id]),
    }
}

/// Rewrites the text from position `i` on: the leftmost tag match is
/// replaced and scanning resumes just past it; unmatched characters are kept
/// as they are. Yields the rewritten text and the unresolved identifiers, one
/// per unresolved tag occurrence, in order.
pub open spec fn rewrite_from(
    t: Seq<char>,
    i: int,
    doc_path: Seq<char>,
    entries: Seq<(Seq<char>, Seq<char>)>,
) -> (Seq<char>, Seq<Seq<char>>)
    decreases t.len() - i,
    via rewrite_from_decreases
{
    if 0 <= i < t.len() {
        match match_at(t, i) {
            Some(m) => {
                let rep = replacement(doc_path, entries, m.id, m.title);
                let rest = rewrite_from(t, m.end, doc_path, entries);
                (rep.0 + rest.0, rep.1 + rest.1)
            },
            None => {
                let rest = rewrite_from(t, i + 1, doc_path, entries);
                (seq![t[i]] + rest.0, rest.1)
            },
        }
    } else {
        (Seq::<char>::empty(), Seq::<Seq<char>>::empty())
    }
}

#[via_fn]
proof fn rewrite_from_decreases(
    t: Seq<char>,
    i: int,
    doc_path: Seq<char>,
    entries: Seq<(Seq<char>, Seq<char>)>,
) {
    if 0 <= i < t.len() && match_at(t, i) is Some {
        lemma_match_at_bounds(t, i);
    }
}

/// The rewrite of a whole text for a document at `doc_path`.
pub open spec fn rewrite_text(
    t: Seq<char>,
    doc_path: Seq<char>,
    entries: Seq<(Seq<char>, Seq<char>)>,
) -> (Seq<char>, Seq<Seq<char>>) {
    rewrite_from(t, 0, doc_path, entries)
}

/// Rewrites every reference tag of `text` for the document at
/// `document_path`; both the document path and the table's target paths are
/// relative to the tree root. Returns the rewritten text and the identifiers
/// that had no table entry, one per occurrence, in order.
pub fn rewrite_document(document_path: &str, text: &str, table: &ReferenceTable) -> (r: (
    String,
    Vec<String>,
))
    ensures
        r.0@ == rewrite_text(text@, document_path@, table@).0,
        views_of(r.1@) == rewrite_text(text@, document_path@, table@).1,
{
    let len = text.unicode_len();
    let mut out = String::new();
    let mut unresolved: Vec<String> = Vec::new();
    let mut i: usize = 0;
    let ghost dp = document_path@;
    let ghost entries = table@;
    proof {
        assert(views_of(unresolved@) =~~= Seq::<Seq<char>>::empty());
    }
    while i < len
        invariant
            len == text@.len(),
            i <= len,
            dp == document_path@,
            entries == table@,
            rewrite_from(text@, 0, dp, entries).0 == out@ + rewrite_from(
                text@,
                i as int,
                dp,
                entries,
            ).0,
            rewrite_from(text@, 0, dp, entries).1 == views_of(unresolved@) + rewrite_from(
                text@,
                i as int,
                dp,
                entries,
            ).1,
        decreases len - i,
    {
        let ghost out0 = out@;
        let ghost unres0 = views_of(unresolved@);
        let ghost here = rewrite_from(text@, i as int, dp, entries);
        match try_match(text, i) {
            Some((end, id, title)) => {
                proof {
                    lemma_match_at_bounds(text@, i as int);
                }
                let ghost rep = replacement(dp, entries, id@, title@);
                let ghost after = rewrite_from(text@, end as int, dp, entries);
                proof {
                    assert(here.0 == rep.0 + after.0);
                    assert(here.1 == rep.1 + after.1);
                }
                match table.lookup_path(id.as_str()) {
                    Some(p) => {
                        out.append("[");
                        out.append(title.as_str());
                        out.append("](");
                        let target = calculate_relative_path(document_path, p.as_str());
                        out.append(target.as_str());
                        out.append(")");
                        proof {
                            assert(out@ =~= out0 + rep.0);
                            assert(out0 + here.0 =~= out@ + after.0);
                            assert(unres0 + here.1 =~~= unres0 + after.1);
                        }
                    },
                    None => {
                        out.append(title.as_str());
                        out.append(" (reference not found)");
                        unresolved.push(id);
                        proof {
                            assert(out@ =~= out0 + rep.0);
                            assert(out0 + here.0 =~= out@ + after.0);
                            assert(views_of(unresolved@) =~~= unres0 + seq![id@]);
                            assert(unres0 + here.1 =~~= views_of(unresolved@) + after.1);
                        }
                    },
                }
                i = end;
            },
            None => {
                let c = text.get_char(i);
                push_char(&mut out, c);
                proof {
                    let rest = rewrite_from(text@, i + 1, dp, entries);
                    assert(here.0 == seq![text@[i as int]] + rest.0);
                    assert(out@ =~= out0 + seq![c]);
                    assert(out0 + here.0 =~= out@ + rest.0);
                }
                i = i + 1;
            },
        }
    }
    proof {
        assert(out@ + rewrite_from(text@, len as int, dp, entries).0 =~= out@);
        assert(views_of(unresolved@) + rewrite_from(text@, len as int, dp, entries).1
            =~~= views_of(unresolved@));
    }
    (out, unresolved)
}

/// One document of the tree: its name, its source path relative to the tree
/// root (absent for structural items that have none), and its text.
pub struct Document {
    pub name: String,
    pub path: Option<String>,
    pub content: String,
}

/// A structural error of a processing run. Unresolved references are not
/// errors; they degrade to inline markers and are only reported.
#[derive(Debug, PartialEq, Eq)]
pub enum ProcessError {
    /// A document lacks the source path required to rewrite it; named after
    /// the document. Collected across all documents, and the run as a whole
    /// fails when any arose, but processing of the other documents goes on.
    MissingDocumentPath { document_name: String },
}

/// What a document's content is after processing: rewritten when the
/// document has a path, untouched when it has none.
pub open spec fn doc_content_after(d: Document, entries: Seq<(Seq<char>, Seq<char>)>) -> Seq<
    char,
> {
    match d.path {
        Some(p) => rewrite_text(d.content@, p@, entries).0,
        None => d.content@,
    }
}

/// The missing-path errors of a document sequence, in document order.
pub open spec fn missing_path_errors(docs: Seq<Document>) -> Seq<ProcessError>
    decreases docs.len(),
{
    if docs.len() == 0 {
        Seq::<ProcessError>::empty()
    } else {
        missing_path_errors(docs.drop_last()) + (match docs.last().path {
            Some(_) => Seq::<ProcessError>::empty(),
            None => seq![
                ProcessError::MissingDocumentPath { document_name: docs.last().name },
            ],
        })
    }
}

/// The unresolved identifiers of a document sequence, in document order.
pub open spec fn all_unresolved(
    docs: Seq<Document>,
    entries: Seq<(Seq<char>, Seq<char>)>,
) -> Seq<Seq<char>>
    decreases docs.len(),
{
    if docs.len() == 0 {
        Seq::<Seq<char>>::empty()
    } else {
        all_unresolved(docs.drop_last(), entries) + (match docs.last().path {
            Some(p) => rewrite_text(docs.last().content@, p@, entries).1,
            None => Seq::<Seq<char>>::empty(),
        })
    }
}

/// The outcome of a processing run over a document sequence.
pub struct ProcessOutcome {
    /// The documents, in the given order, with rewritten content.
    pub documents: Vec<Document>,
    /// One error per document that lacks a path, in document order.
    pub errors: Vec<ProcessError>,
    /// The unresolved identifiers of all documents, one per occurrence.
    pub unresolved: Vec<String>,
}

/// Processes every document: each one with a path has its content rewritten
/// against the table, each one without a path is kept as it is and yields a
/// `MissingDocumentPath` error, and processing always covers the whole
/// sequence. Each document's rewrite is independent of the others.
pub fn process_documents(table: &ReferenceTable, docs: &Vec<Document>) -> (r: ProcessOutcome)
    ensures
        r.documents@.len() == docs@.len(),
        forall|j: int|
            0 <= j < docs@.len() ==> {
                &&& (#[trigger] r.documents@[j]).name == docs@[j].name
                &&& r.documents@[j].path == docs@[j].path
                &&& r.documents@[j].content@ == doc_content_after(docs@[j], table@)
            },
        r.errors@ == missing_path_errors(docs@),
        views_of(r.unresolved@) == all_unresolved(docs@, table@),
{
    let mut documents: Vec<Document> = Vec::new();
    let mut errors: Vec<ProcessError> = Vec::new();
    let mut unresolved: Vec<String> = Vec::new();
    let mut k: usize = 0;
    let ghost entries = table@;
    proof {
        assert(docs@.take(0) =~~= Seq::<Document>::empty());
        assert(views_of(unresolved@) =~~= Seq::<Seq<char>>::empty());
    }
    while k < docs.len()
        invariant
            k <= docs@.len(),
            entries == table@,
            documents@.len() == k,
            forall|j: int|
                0 <= j < k ==> {
                    &&& (#[trigger] documents@[j]).name == docs@[j].name
                    &&& documents@[j].path == docs@[j].path
                    &&& documents@[j].content@ == doc_content_after(docs@[j], entries)
                },
            errors@ == missing_path_errors(docs@.take(k as int)),
            views_of(unresolved@) == all_unresolved(docs@.take(k as int), entries),
        decreases docs@.len() - k,
    {
        let d = &docs[k];
        proof {
            assert(docs@.take(k + 1).drop_last() =~~= docs@.take(k as int));
            assert(docs@.take(k + 1).last() == docs@[k as int]);
        }
        let ghost errors0 = errors@;
        let ghost unres0 = views_of(unresolved@);
        match &d.path {
            Some(p) => {
                let (content, mut unres) = rewrite_document(p.as_str(), d.content.as_str(), table);
                proof {
                    assert(docs@[k as int].path matches Some(pv) && pv == *p);
                }
                documents.push(Document { name: d.name.clone(), path: Some(p.clone()), content });
                proof {
                    assert(views_of(unresolved@ + unres@) =~~= unres0 + views_of(unres@));
                }
                unresolved.append(&mut unres);
                proof {
                    assert(errors@ =~~= missing_path_errors(docs@.take(k + 1)));
                    assert(views_of(unresolved@) =~~= all_unresolved(docs@.take(k + 1), entries));
                }
            },
            None => {
                documents.push(
                    Document { name: d.name.clone(), path: None, content: d.content.clone() },
                );
                errors.push(
                    ProcessError::MissingDocumentPath { document_name: d.name.clone() },
                );
                proof {
                    assert(errors@ =~~= errors0 + seq![
                        ProcessError::MissingDocumentPath { document_name: docs@[k as int].name },
                    ]);
                    assert(errors@ =~~= missing_path_errors(docs@.take(k + 1)));
                    assert(views_of(unresolved@) =~~= all_unresolved(docs@.take(k + 1), entries));
                }
            },
        }
        k = k + 1;
    }
    proof {
        assert(docs@.take(docs@.len() as int) =~~= docs@);
    }
    ProcessOutcome { documents, errors, unresolved }
}

/// The canonical written form of a reference tag, with single spaces for the
/// tolerated whitespace.
pub open spec fn tag_text(id: Seq<char>, title: Seq<char>) -> Seq<char> {
    "{{reference: {id: \""@ + id + "\", title: \""@ + title + "\"}}}"@
}

/// A well-formed identifier or title: non-empty text without a `"`.
pub open spec fn tag_field(s: Seq<char>) -> bool {
    s.len() > 0 && forall|j: int| 0 <= j < s.len() ==> s[j] != '"'
}

/// Finding the first quote from a quote-free stretch: the first `"` at or
/// after `i` is the one at `j`.
pub proof fn lemma_find_quote_at(t: Seq<char>, i: int, j: int)
    requires
        0 <= i <= j < t.len(),
        t[j] == '"',
        forall|k: int| i <= k < j ==> t[k] != '"',
    ensures
        find_quote(t, i) == j,
    decreases j - i,
{
    if i < j {
        lemma_find_quote_at(t, i + 1, j);
    }
}

/// A canonical tag written at position `i` of a text matches there, whatever
/// surrounds it, capturing exactly its identifier and title.
pub proof fn lemma_match_canonical_tag(t: Seq<char>, i: int, id: Seq<char>, title: Seq<char>)
    requires
        tag_field(id),
        tag_field(title),
        0 <= i,
        i + tag_text(id, title).len() <= t.len(),
        t.subrange(i, i + tag_text(id, title).len()) == tag_text(id, title),
    ensures
        match_at(t, i) == Some(
            TagMatch { id: id, title: title, end: i + tag_text(id, title).len() },
        ),
{
    reveal_strlit("{{reference: {id: \"");
    reveal_strlit("\", title: \"");
    reveal_strlit("\"}}}");
    reveal_strlit("{{reference:");
    reveal_strlit("{id:");
    reveal_strlit("title:");
    reveal_strlit("}}}");
    let tag = tag_text(id, title);
    let n = id.len() as int;
    let m = title.len() as int;
    assert(tag.len() == 34 + n + m);
    assert forall|j: int| 0 <= j < 34 + n + m implies t[i + j] == #[trigger] tag[j] by {
        assert(tag[j] == t.subrange(i, i + tag.len())[j]);
    }
    // the fixed delimiter characters of the tag, position by position
    assert(t[i + 12] == tag[12] && tag[12] == ' ');
    assert(t[i + 13] == tag[13] && tag[13] == '{');
    assert(t[i + 17] == tag[17] && tag[17] == ' ');
    assert(t[i + 18] == tag[18] && tag[18] == '"');
    assert(t[i + 19 + n] == tag[19 + n] && tag[19 + n] == '"');
    assert(t[i + 20 + n] == tag[20 + n] && tag[20 + n] == ',');
    assert(t[i + 21 + n] == tag[21 + n] && tag[21 + n] == ' ');
    assert(t[i + 22 + n] == tag[22 + n] && tag[22 + n] == 't');
    assert(t[i + 28 + n] == tag[28 + n] && tag[28 + n] == ' ');
    assert(t[i + 29 + n] == tag[29 + n] && tag[29 + n] == '"');
    assert(t[i + 30 + n + m] == tag[30 + n + m] && tag[30 + n + m] == '"');
    // the opening literal
    assert(t.subrange(i, i + 12) =~= "{{reference:"@) by {
        assert forall|j: int| 0 <= j < 12 implies t.subrange(i, i + 12)[j] == "{{reference:"@[j] by {
            assert(t[i + j] == tag[j]);
        }
    }
    // whitespace runs are single spaces followed by a delimiter
    assert(skip_ws(t, i + 13) == i + 13);
    assert(skip_ws(t, i + 12) == i + 13);
    let p1 = skip_ws(t, i + 12);
    assert(t.subrange(i + 13, i + 17) =~= "{id:"@) by {
        assert forall|j: int| 0 <= j < 4 implies t.subrange(i + 13, i + 17)[j] == "{id:"@[j] by {
            assert(t[i + 13 + j] == tag[13 + j]);
        }
    }
    assert(starts_with_at(t, p1, "{id:"@));
    assert(skip_ws(t, i + 18) == i + 18);
    assert(skip_ws(t, i + 17) == i + 18);
    // the identifier: quote-free, delimited by the first quote after it
    assert forall|k: int| i + 19 <= k < i + 19 + n implies t[k] != '"' by {
        assert(t[i + (k - i)] == tag[k - i]);
        assert(tag[k - i] == id[k - i - 19]);
    }
    lemma_find_quote_at(t, i + 19, i + 19 + n);
    assert(t.subrange(i + 19, i + 19 + n) =~= id) by {
        assert forall|j: int| 0 <= j < n implies t.subrange(i + 19, i + 19 + n)[j] == id[j] by {
            assert(t[i + (19 + j)] == tag[19 + j]);
        }
    }
    assert(skip_ws(t, i + 20 + n) == i + 20 + n);
    assert(skip_ws(t, i + 22 + n) == i + 22 + n);
    assert(skip_ws(t, i + 21 + n) == i + 22 + n);
    assert(t.subrange(i + 22 + n, i + 28 + n) =~= "title:"@) by {
        assert forall|j: int| 0 <= j < 6 implies t.subrange(i + 22 + n, i + 28 + n)[j] == "title:"@[j]
        by {
            assert(t[i + (22 + n + j)] == tag[22 + n + j]);
        }
    }
    assert(skip_ws(t, i + 29 + n) == i + 29 + n);
    assert(skip_ws(t, i + 28 + n) == i + 29 + n);
    // the title, delimited the same way
    assert forall|k: int| i + 30 + n <= k < i + 30 + n + m implies t[k] != '"' by {
        assert(t[i + (k - i)] == tag[k - i]);
        assert(tag[k - i] == title[k - i - 30 - n]);
    }
    lemma_find_quote_at(t, i + 30 + n, i + 30 + n + m);
    assert(t.subrange(i + 30 + n, i + 30 + n + m) =~= title) by {
        assert forall|j: int| 0 <= j < m implies t.subrange(i + 30 + n, i + 30 + n + m)[j]
            == title[j] by {
            assert(t[i + (30 + n + j)] == tag[30 + n + j]);
        }
    }
    // the closing braces
    assert(t[i + 31 + n + m] == tag[31 + n + m] && tag[31 + n + m] == '}');
    assert(t[i + 32 + n + m] == tag[32 + n + m] && tag[32 + n + m] == '}');
    assert(t[i + 33 + n + m] == tag[33 + n + m] && tag[33 + n + m] == '}');
    assert(t.subrange(i + 31 + n + m, i + 34 + n + m) =~= "}}}"@) by {
        assert forall|j: int| 0 <= j < 3 implies t.subrange(i + 31 + n + m, i + 34 + n + m)[j]
            == "}}}"@[j] by {
            assert(t[i + (31 + n + m + j)] == tag[31 + n + m + j]);
        }
    }
    assert(starts_with_at(t, i + 31 + n + m, "}}}"@));
}

/// Well-formed identifier and title fields throughout a tag sequence.
pub open spec fn all_tag_fields(pairs: Seq<(Seq<char>, Seq<char>)>) -> bool {
    forall|j: int|
        0 <= j < pairs.len() ==> tag_field((#[trigger] pairs[j]).0) && tag_field(pairs[j].1)
}

/// The concatenation of the canonical tags of a sequence of
/// identifier/title pairs.
pub open spec fn tags_concat(pairs: Seq<(Seq<char>, Seq<char>)>) -> Seq<char>
    decreases pairs.len(),
{
    if pairs.len() == 0 {
        Seq::<char>::empty()
    } else {
        tag_text(pairs[0].0, pairs[0].1) + tags_concat(pairs.drop_first())
    }
}

/// The replacements of a tag sequence, concatenated in order.
pub open spec fn replacements_concat(
    doc_path: Seq<char>,
    entries: Seq<(Seq<char>, Seq<char>)>,
    pairs: Seq<(Seq<char>, Seq<char>)>,
) -> Seq<char>
    decreases pairs.len(),
{
    if pairs.len() == 0 {
        Seq::<char>::empty()
    } else {
        replacement(doc_path, entries, pairs[0].0, pairs[0].1).0 + replacements_concat(
            doc_path,
            entries,
            pairs.drop_first(),
        )
    }
}

/// The unresolved identifiers of a tag sequence: one per tag whose
/// identifier is absent from the table, in order.
pub open spec fn unresolved_concat(
    doc_path: Seq<char>,
    entries: Seq<(Seq<char>, Seq<char>)>,
    pairs: Seq<(Seq<char>, Seq<char>)>,
) -> Seq<Seq<char>>
    decreases pairs.len(),
{
    if pairs.len() == 0 {
        Seq::<Seq<char>>::empty()
    } else {
        replacement(doc_path, entries, pairs[0].0, pairs[0].1).1 + unresolved_concat(
            doc_path,
            entries,
            pairs.drop_first(),
        )
    }
}

proof fn lemma_rewrite_tags_from(
    t: Seq<char>,
    i: int,
    doc_path: Seq<char>,
    entries: Seq<(Seq<char>, Seq<char>)>,
    pairs: Seq<(Seq<char>, Seq<char>)>,
)
    requires
        all_tag_fields(pairs),
        0 <= i <= t.len(),
        t.subrange(i, t.len() as int) == tags_concat(pairs),
    ensures
        rewrite_from(t, i, doc_path, entries).0 == replacements_concat(doc_path, entries, pairs),
        rewrite_from(t, i, doc_path, entries).1 == unresolved_concat(doc_path, entries, pairs),
    decreases pairs.len(),
{
    reveal_strlit("{{reference: {id: \"");
    if pairs.len() == 0 {
        assert(tags_concat(pairs) == Seq::<char>::empty());
        assert(t.subrange(i, t.len() as int).len() == t.len() - i);
        assert(t.len() - i == 0);
        assert(replacements_concat(doc_path, entries, pairs) == Seq::<char>::empty());
        assert(unresolved_concat(doc_path, entries, pairs) == Seq::<Seq<char>>::empty());
    } else {
        let id = pairs[0].0;
        let title = pairs[0].1;
        let tag = tag_text(id, title);
        let rest_pairs = pairs.drop_first();
        let taglen = tag.len() as int;
        assert(tags_concat(pairs) == tag + tags_concat(rest_pairs));
        assert(t.subrange(i, t.len() as int).len() == t.len() - i);
        assert(t.len() - i == tag.len() + tags_concat(rest_pairs).len());
        assert(t.subrange(i, i + taglen) =~= tag) by {
            assert forall|j: int| 0 <= j < taglen implies t.subrange(i, i + taglen)[j] == tag[j] by {
                assert(t.subrange(i, t.len() as int)[j] == tag[j]);
                assert(t.subrange(i, i + taglen)[j] == t[i + j]);
                assert(t.subrange(i, t.len() as int)[j] == t[i + j]);
            }
        }
        lemma_match_canonical_tag(t, i, id, title);
        let e = i + taglen;
        assert(t.subrange(e, t.len() as int) =~= tags_concat(rest_pairs)) by {
            assert forall|j: int| 0 <= j < tags_concat(rest_pairs).len() implies t.subrange(
                e,
                t.len() as int,
            )[j] == tags_concat(rest_pairs)[j] by {
                assert(t.subrange(i, t.len() as int)[taglen + j] == tags_concat(rest_pairs)[j]);
                assert(t.subrange(e, t.len() as int)[j] == t[e + j]);
                assert(t.subrange(i, t.len() as int)[taglen + j] == t[i + taglen + j]);
            }
        }
        assert(all_tag_fields(rest_pairs)) by {
            assert(forall|j: int| 0 <= j < rest_pairs.len() ==> rest_pairs[j] == pairs[j + 1]);
        }
        lemma_rewrite_tags_from(t, e, doc_path, entries, rest_pairs);
    }
}

/// Any number of adjacent tags is rewritten tag by tag, each independently
/// of the others: the output is the tags' replacements in order, and the
/// unresolved identifiers are those of the unresolved tags, one per
/// occurrence, in order — whatever targets the identifiers map to.
pub proof fn lemma_rewrite_tag_sequence(
    doc_path: Seq<char>,
    entries: Seq<(Seq<char>, Seq<char>)>,
    pairs: Seq<(Seq<char>, Seq<char>)>,
)
    requires
        all_tag_fields(pairs),
    ensures
        rewrite_text(tags_concat(pairs), doc_path, entries) == ((
            replacements_concat(doc_path, entries, pairs),
            unresolved_concat(doc_path, entries, pairs),
        )),
{
    let t = tags_concat(pairs);
    assert(t.subrange(0, t.len() as int) =~= t);
    lemma_rewrite_tags_from(t, 0, doc_path, entries, pairs);
}

/// A stretch of text where no match starts passes through the rewriter
/// unchanged and contributes no unresolved identifiers.
pub proof fn lemma_rewrite_no_match_region(
    t: Seq<char>,
    i: int,
    j: int,
    doc_path: Seq<char>,
    entries: Seq<(Seq<char>, Seq<char>)>,
)
    requires
        0 <= i <= j <= t.len(),
        forall|k: int| i <= k < j ==> match_at(t, k) is None,
    ensures
        rewrite_from(t, i, doc_path, entries).0 == t.subrange(i, j) + rewrite_from(
            t,
            j,
            doc_path,
            entries,
        ).0,
        rewrite_from(t, i, doc_path, entries).1 == rewrite_from(t, j, doc_path, entries).1,
    decreases j - i,
{
    if i < j {
        lemma_rewrite_no_match_region(t, i + 1, j, doc_path, entries);
        let rest = rewrite_from(t, j, doc_path, entries);
        assert(seq![t[i]] + (t.subrange(i + 1, j) + rest.0) =~= t.subrange(i, j) + rest.0);
    } else {
        assert(t.subrange(i, i) + rewrite_from(t, i, doc_path, entries).0 =~= rewrite_from(
            t,
            i,
            doc_path,
            entries,
        ).0);
    }
}

/// A document holding exactly one tag, between stretches where no match
/// starts, is rewritten to the surrounding text with the tag's replacement
/// between, and its unresolved identifiers are exactly the tag's.
pub proof fn lemma_rewrite_single_tag_in_context(
    t: Seq<char>,
    s: int,
    doc_path: Seq<char>,
    entries: Seq<(Seq<char>, Seq<char>)>,
    id: Seq<char>,
    title: Seq<char>,
)
    requires
        tag_field(id),
        tag_field(title),
        0 <= s,
        s + tag_text(id, title).len() <= t.len(),
        t.subrange(s, s + tag_text(id, title).len()) == tag_text(id, title),
        forall|k: int| 0 <= k < s ==> match_at(t, k) is None,
        forall|k: int| s + tag_text(id, title).len() <= k < t.len() ==> match_at(t, k) is None,
    ensures
        rewrite_text(t, doc_path, entries) == ((
            t.subrange(0, s) + replacement(doc_path, entries, id, title).0 + t.subrange(
                s + tag_text(id, title).len(),
                t.len() as int,
            ),
            replacement(doc_path, entries, id, title).1,
        )),
{
    let e = s + tag_text(id, title).len();
    lemma_match_canonical_tag(t, s, id, title);
    lemma_rewrite_no_match_region(t, 0, s, doc_path, entries);
    lemma_rewrite_no_match_region(t, e, t.len() as int, doc_path, entries);
    let rep = replacement(doc_path, entries, id, title);
    let tail = rewrite_from(t, t.len() as int, doc_path, entries);
    assert(t.subrange(t.len() as int, t.len() as int) + tail.0 =~= tail.0);
    assert(rewrite_from(t, e, doc_path, entries).0 == t.subrange(e, t.len() as int) + tail.0);
    assert(rewrite_from(t, s, doc_path, entries).0 == rep.0 + (t.subrange(e, t.len() as int)
        + tail.0));
    assert(t.subrange(0, s) + (rep.0 + (t.subrange(e, t.len() as int) + tail.0)) =~= t.subrange(
        0,
        s,
    ) + rep.0 + t.subrange(e, t.len() as int));
    assert(rep.1 + tail.1 =~~= rep.1);
}

/// The round trip of a single tag. Rewriting a text that is exactly one
/// canonical tag yields, for an identifier present in the table, the markdown
/// link `[title](relative path)` and no unresolved identifiers; for an absent
/// identifier, the literal text `title (reference not found)` and that one
/// identifier as unresolved.
pub proof fn lemma_rewrite_single_tag(
    doc_path: Seq<char>,
    entries: Seq<(Seq<char>, Seq<char>)>,
    id: Seq<char>,
    title: Seq<char>,
)
    requires
        tag_field(id),
        tag_field(title),
    ensures
        spec_lookup(entries, id) matches Some(target) ==> rewrite_text(
            tag_text(id, title),
            doc_path,
            entries,
        ) == (("["@ + title + "]("@ + rel_path(doc_path, target) + ")"@), Seq::<Seq<char>>::empty()),
        spec_lookup(entries, id) is None ==> rewrite_text(tag_text(id, title), doc_path, entries)
            == ((title + " (reference not found)"@), seq![id]),
{
    let t = tag_text(id, title);
    assert(t.subrange(0, t.len() as int) =~= t);
    reveal_strlit("{{reference: {id: \"");
    assert(t.len() >= 19);
    lemma_match_canonical_tag(t, 0, id, title);
    let rep = replacement(doc_path, entries, id, title);
    let rest = rewrite_from(t, t.len() as int, doc_path, entries);
    assert(rest.0 =~= Seq::<char>::empty());
    assert(rewrite_from(t, 0, doc_path, entries).0 == rep.0 + rest.0);
    assert(rep.0 + rest.0 =~= rep.0);
    assert(rep.1 + rest.1 =~~= rep.1);
}

/// Two adjacent tags are rewritten independently: the result is the two
/// replacements in order, and the unresolved identifiers are those of the
/// two tags in order, whatever distinct targets the two identifiers map to.
pub proof fn lemma_rewrite_two_tags(
    doc_path: Seq<char>,
    entries: Seq<(Seq<char>, Seq<char>)>,
    id1: Seq<char>,
    title1: Seq<char>,
    id2: Seq<char>,
    title2: Seq<char>,
)
    requires
        tag_field(id1),
        tag_field(title1),
        tag_field(id2),
        tag_field(title2),
    ensures
        rewrite_text(tag_text(id1, title1) + tag_text(id2, title2), doc_path, entries) == ((
            replacement(doc_path, entries, id1, title1).0 + replacement(
                doc_path,
                entries,
                id2,
                title2,
            ).0,
            replacement(doc_path, entries, id1, title1).1 + replacement(
                doc_path,
                entries,
                id2,
                title2,
            ).1,
        )),
{
    let t1 = tag_text(id1, title1);
    let t2 = tag_text(id2, title2);
    let t = t1 + t2;
    reveal_strlit("{{reference: {id: \"");
    reveal_strlit("\", title: \"");
    reveal_strlit("\"}}}");
    assert(t1.len() >= 19 && t2.len() >= 19);
    assert(t.subrange(0, t1.len() as int) =~= t1);
    lemma_match_canonical_tag(t, 0, id1, title1);
    assert(t.subrange(t1.len() as int, (t1.len() + t2.len()) as int) =~= t2);
    lemma_match_canonical_tag(t, t1.len() as int, id2, title2);
    let rep1 = replacement(doc_path, entries, id1, title1);
    let rep2 = replacement(doc_path, entries, id2, title2);
    let rest = rewrite_from(t, t.len() as int, doc_path, entries);
    assert(rewrite_from(t, t1.len() as int, doc_path, entries).0 == rep2.0 + rest.0);
    assert(rewrite_from(t, 0, doc_path, entries).0 == rep1.0 + (rep2.0 + rest.0));
    assert(rep1.0 + (rep2.0 + rest.0) =~= rep1.0 + rep2.0);
    assert(rep1.1 + (rep2.1 + rest.1) =~~= rep1.1 + rep2.1);
}

} // verus!




