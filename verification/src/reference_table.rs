//! The reference table: a mapping from stable reference identifiers to
//! target document paths expressed relative to the tree root.
//!
//! The table is built once from the records of a YAML mapping file and is
//! read-only thereafter. Record paths are stored verbatim: they are given
//! relative to the tree root, and resolving such a path against the root and
//! re-relativizing it to the root returns the same path (see
//! [`crate::paths::lemma_root_relative_resolution`]).

use vstd::prelude::*;
use vstd::string::*;

use crate::text::str_eq;

verus! {

/// Errors of table construction. Reading the mapping file from disk is the
/// caller's business; this library only parses its content.
#[derive(Debug, Clone, Copy, PartialEq, Eq)]
pub enum LoadError {
    /// The mapping file's content is not valid YAML, or its top level does
    /// not hold a `reference-table` key with a sequence value.
    MappingFileParseError,
}

/// Whether serde_yaml parses the given text into a YAML document. Named
/// here so that contracts can speak of it; the parse is a deterministic
/// function of the text alone.
pub uninterp spec fn yaml_parses(s: Seq<char>) -> bool;

/// The `id` and `path` string fields of each record of the top-level
/// `reference-table` sequence of the YAML text, in file order; None when
/// the text does not parse or its top level does not hold such a sequence.
/// A record's field is None when it is absent or not a string. Named here:
/// the extraction is a deterministic function of the text alone.
pub uninterp spec fn yaml_table_records(s: Seq<char>) -> Option<
    Seq<(Option<Seq<char>>, Option<Seq<char>>)>,
>;

/// The view of one optional string field.
pub open spec fn opt_view(o: Option<String>) -> Option<Seq<char>> {
    match o {
        Some(t) => Some(t@),
        None => None,
    }
}

/// The views of a sequence of optional-field records.
pub open spec fn field_views(recs: Seq<(Option<String>, Option<String>)>) -> Seq<
    (Option<Seq<char>>, Option<Seq<char>>),
> {
    recs.map_values(|r: (Option<String>, Option<String>)| (opt_view(r.0), opt_view(r.1)))
}

/// The records the table keeps: those with both fields present, in order;
/// the others are silently skipped.
pub open spec fn kept_records(recs: Seq<(Option<Seq<char>>, Option<Seq<char>>)>) -> Seq<
    (Seq<char>, Seq<char>),
>
    decreases recs.len(),
{
    if recs.len() == 0 {
        Seq::<(Seq<char>, Seq<char>)>::empty()
    } else {
        let rest = kept_records(recs.drop_last());
        match (recs.last().0, recs.last().1) {
            (Some(id), Some(path)) => rest.push((id, path)),
            _ => rest,
        }
    }
}

/// The view of a sequence of identifier/path records.
pub open spec fn records_view(records: Seq<(String, String)>) -> Seq<(Seq<char>, Seq<char>)> {
    records.map_values(|pr: (String, String)| (pr.0@, pr.1@))
}

/// Looks an identifier up among table entries; the last record with the
/// identifier wins, mirroring insertion into a map one record at a time.
pub open spec fn spec_lookup(entries: Seq<(Seq<char>, Seq<char>)>, id: Seq<char>) -> Option<
    Seq<char>,
>
    decreases entries.len(),
{
    if entries.len() == 0 {
        None
    } else if entries.last().0 == id {
        Some(entries.last().1)
    } else {
        spec_lookup(entries.drop_last(), id)
    }
}

/// Relies on serde_yaml::from_str, Value::get, Value::as_sequence and
/// Value::as_str: parses the text and reads, from each record of its
/// top-level `reference-table` sequence, the `id` and `path` string fields.
/// The whole extraction is a deterministic function of the text, so its
/// result carries the two names above.
#[verifier::external_body]
fn yaml_extract_records(s: &str) -> (r: Option<Vec<(Option<String>, Option<String>)>>)
    ensures
        match r {
            Some(recs) => yaml_parses(s@) && yaml_table_records(s@) == Some(field_views(recs@)),
            None => yaml_table_records(s@) is None,
        },
{
    let doc: serde_yaml::Value = serde_yaml::from_str(s).ok()?;
    let entries = doc.get("reference-table")?.as_sequence()?;
    Some(entries.iter().map(|e| (
        e.get("id").and_then(serde_yaml::Value::as_str).map(str::to_string),
        e.get("path").and_then(serde_yaml::Value::as_str).map(str::to_string),
    )).collect())
}

/// The identifier-to-path table. Built once, read-only thereafter.
#[derive(Debug)]
pub struct ReferenceTable {
    references: Vec<(String, String)>,
}

impl View for ReferenceTable {
    type V = Seq<(Seq<char>, Seq<char>)>;

    closed spec fn view(&self) -> Seq<(Seq<char>, Seq<char>)> {
        records_view(self.references@)
    }
}

impl ReferenceTable {
    /// Builds the table directly from identifier/path records, in order.
    /// The table's entries are exactly the given records; on lookup a later
    /// record shadows an earlier one with the same identifier.
    pub fn from_records(records: Vec<(String, String)>) -> (t: ReferenceTable)
        ensures
            t@ == records_view(records@),
    {
        ReferenceTable { references: records }
    }

    /// Builds the table from the text of a mapping file: a YAML document
    /// whose top-level key `reference-table` holds a sequence of records
    /// with string fields `id` and `path`. The table's entries are exactly
    /// the records with both fields, in file order; records missing either
    /// field are silently skipped. Text that does not parse, or whose top
    /// level does not hold such a sequence, is a `MappingFileParseError`.
    /// The built table is a function of the text alone: loading the same
    /// text twice yields identical tables.
    pub fn new(yaml_content: &str) -> (r: Result<ReferenceTable, LoadError>)
        ensures
            match yaml_table_records(yaml_content@) {
                Some(recs) => r matches Ok(t) && t@ == kept_records(recs),
                None => r matches Err(e) && e == LoadError::MappingFileParseError,
            },
            !yaml_parses(yaml_content@) ==> r is Err,
    {
        let recs = match yaml_extract_records(yaml_content) {
            Some(recs) => recs,
            None => {
                return Err(LoadError::MappingFileParseError);
            },
        };
        let ghost fv = field_views(recs@);
        let mut records: Vec<(String, String)> = Vec::new();
        let mut k: usize = 0;
        proof {
            assert(fv.take(0) =~~= Seq::<(Option<Seq<char>>, Option<Seq<char>>)>::empty());
            assert(records_view(records@) =~~= kept_records(fv.take(0)));
        }
        while k < recs.len()
            invariant
                k <= recs@.len(),
                fv == field_views(recs@),
                records_view(records@) == kept_records(fv.take(k as int)),
            decreases recs@.len() - k,
        {
            let rec = &recs[k];
            proof {
                assert(fv.take(k + 1).drop_last() =~~= fv.take(k as int));
                assert(fv.take(k + 1).last() == fv[k as int]);
                assert(fv[k as int] == (
                    opt_view(recs@[k as int].0),
                    opt_view(recs@[k as int].1),
                ));
            }
            match (&rec.0, &rec.1) {
                (Some(id), Some(path)) => {
                    let ghost rv0 = records_view(records@);
                    records.push((id.clone(), path.clone()));
                    proof {
                        assert(records_view(records@) =~~= rv0.push((id@, path@)));
                    }
                },
                _ => {},
            }
            k = k + 1;
        }
        proof {
            assert(fv.take(recs@.len() as int) =~~= fv);
        }
        Ok(Self::from_records(records))
    }

    /// Looks an identifier up in the table; the last record with the
    /// identifier wins.
    pub fn lookup_path(&self, id: &str) -> (r: Option<&String>)
        ensures
            match r {
                Some(p) => spec_lookup(self@, id@) == Some(p@),
                None => spec_lookup(self@, id@) is None,
            },
    {
        let mut k: usize = self.references.len();
        proof {
            assert(self@.take(k as int) =~~= self@);
        }
        while k > 0
            invariant
                k <= self.references.len(),
                spec_lookup(self@, id@) == spec_lookup(self@.take(k as int), id@),
            decreases k,
        {
            let entry = &self.references[k - 1];
            proof {
                assert(self@.take(k as int).last() == self@[k - 1]);
                assert(self@.take(k as int).drop_last() =~~= self@.take(k - 1));
            }
            if str_eq(id, entry.0.as_str()) {
                return Some(&entry.1);
            }
            k = k - 1;
        }
        proof {
            assert(self@.take(0) =~~= Seq::<(Seq<char>, Seq<char>)>::empty());
        }
        None
    }
}

/// The policy for duplicate identifiers: a record appended to the table
/// shadows every earlier record with the same identifier.
pub proof fn lemma_lookup_last_wins(
    entries: Seq<(Seq<char>, Seq<char>)>,
    id: Seq<char>,
    path: Seq<char>,
)
    ensures
        spec_lookup(entries.push((id, path)), id) == Some(path),
{
    assert(entries.push((id, path)).last() == (id, path));
}

/// Pairwise-distinct identifiers among table entries.
pub open spec fn distinct_ids(entries: Seq<(Seq<char>, Seq<char>)>) -> bool {
    forall|j: int, k: int|
        0 <= j < k < entries.len() ==> (#[trigger] entries[j]).0 != (#[trigger] entries[k]).0
}

/// For entries with pairwise-distinct identifiers, lookup is membership:
/// it yields exactly the records that are present, wherever they stand.
/// Loading tables whose records differ only in order therefore gives the
/// same lookups.
pub proof fn lemma_lookup_is_membership(
    entries: Seq<(Seq<char>, Seq<char>)>,
    id: Seq<char>,
    path: Seq<char>,
)
    requires
        distinct_ids(entries),
    ensures
        spec_lookup(entries, id) == Some(path) <==> entries.contains((id, path)),
    decreases entries.len(),
{
    if entries.len() > 0 {
        let last = entries.last();
        let rest = entries.drop_last();
        assert(entries.contains(last));
        assert(distinct_ids(rest)) by {
            assert(forall|j: int, k: int|
                0 <= j < k < rest.len() ==> (#[trigger] rest[j]).0 != (#[trigger] rest[k]).0)
                by {
                assert(forall|j: int| 0 <= j < rest.len() ==> rest[j] == entries[j]);
            }
        }
        lemma_lookup_is_membership(rest, id, path);
        if last.0 == id {
            // a record (id, path) elsewhere would repeat the identifier
            assert(forall|j: int|
                0 <= j < entries.len() - 1 ==> (#[trigger] entries[j]).0 != id);
            if entries.contains((id, path)) {
                let w = choose|w: int| 0 <= w < entries.len() && entries[w] == (id, path);
                assert(w == entries.len() - 1);
                assert(path == last.1);
            }
        } else {
            // the last record is not (id, path); membership is in the rest
            if entries.contains((id, path)) {
                let w = choose|w: int| 0 <= w < entries.len() && entries[w] == (id, path);
                assert(rest[w] == (id, path));
                assert(rest.contains((id, path)));
            }
            if rest.contains((id, path)) {
                let w = choose|w: int| 0 <= w < rest.len() && rest[w] == (id, path);
                assert(entries[w] == (id, path));
            }
        }
    }
}

/// Appending a record leaves lookups of every other identifier unchanged.
pub proof fn lemma_lookup_other_unchanged(
    entries: Seq<(Seq<char>, Seq<char>)>,
    id: Seq<char>,
    path: Seq<char>,
    other: Seq<char>,
)
    requires
        other != id,
    ensures
        spec_lookup(entries.push((id, path)), other) == spec_lookup(entries, other),
{
    assert(entries.push((id, path)).drop_last() =~~= entries);
}

} // verus!
