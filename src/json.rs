use vstd::prelude::*;

use crate::grouping::{group_records, RecordGroups};
use crate::loader::{opt_str, opt_view, tuples, EventFields};
use crate::grouping::with_key;
use crate::record::{record_from_fields, record_outcome, BenchRecord, LoadError};

verus! {

/// What serde_json reads from one line: `None` when the line is no JSON document;
/// else the texts of the members `reason` and `id`, and the written form of the number
/// `typical.estimate`, each `None` when absent or of another JSON type.
pub uninterp spec fn line_fields(line: Seq<char>) -> Option<(Option<Seq<char>>, Option<Seq<char>>, Option<Seq<char>>)>;

pub open spec fn fields_view(f: Option<(Option<String>, Option<String>, Option<String>)>) -> Option<
    (Option<Seq<char>>, Option<Seq<char>>, Option<Seq<char>>),
> {
    match f {
        Some((a, b, c)) => Some((opt_view(a), opt_view(b), opt_view(c))),
        None => None,
    }
}

/// Relies on `serde_json::from_str` into a `serde_json::Value`, on `Value::get`,
/// `Value::as_str` and `Value::as_number`, and on the `Display` of `serde_json::Number`:
/// the fields of one line, which depend on the line's text alone.
#[verifier::external_body]
fn json_line_fields(line: &str) -> (r: Option<(Option<String>, Option<String>, Option<String>)>)
    ensures
        fields_view(r) == line_fields(line@),
{
    let v: serde_json::Value = serde_json::from_str(line).ok()?;
    let reason = v.get("reason").and_then(|m| m.as_str()).map(|s| s.to_string());
    let id = v.get("id").and_then(|m| m.as_str()).map(|s| s.to_string());
    let typical = v.get("typical").and_then(|t| t.get("estimate"));
    let estimate = typical.and_then(|e| e.as_number()).map(|n| n.to_string());
    Some((reason, id, estimate))
}

/// The fields that the loader reads from one line: `reason` and `id` as texts, and
/// `typical.estimate` as the written number. `None` when the line is not JSON.
pub fn event_from_line(line: &str) -> (r: Option<EventFields>)
    ensures
        match r {
            Some(e) => line_fields(line@) == Some((opt_view(e.reason), opt_view(e.id), opt_view(e.estimate))),
            None => line_fields(line@).is_none(),
        },
{
    match json_line_fields(line) {
        Some((reason, id, estimate)) => Some(EventFields { reason, id, estimate }),
        None => None,
    }
}

/// What one line yields: `None` when it is not JSON or its event is malformed,
/// `Some(None)` when it is skipped, else the record.
pub open spec fn line_outcome(line: Seq<char>, excluded: Seq<u32>) -> Option<Option<(Seq<char>, Seq<char>, nat, nat)>> {
    match line_fields(line) {
        None => None,
        Some((a, b, c)) => record_outcome(a, b, c, excluded),
    }
}

pub open spec fn line_malformed(line: Seq<char>, excluded: Seq<u32>) -> bool {
    line_outcome(line, excluded).is_none()
}

/// The records that the lines yield, in their order.
pub open spec fn kept_lines(lines: Seq<String>, excluded: Seq<u32>) -> Seq<(Seq<char>, Seq<char>, nat, nat)>
    decreases lines.len(),
{
    if lines.len() == 0 {
        Seq::empty()
    } else {
        let prev = kept_lines(lines.drop_last(), excluded);
        match line_outcome(lines.last()@, excluded) {
            Some(Some(t)) => prev.push(t),
            _ => prev,
        }
    }
}

/// Loads newline-delimited JSON events, dropping records whose size is in `excluded`.
/// The first line that is not JSON or holds a malformed event stops the load with
/// its index; else the records are grouped.
pub fn load_data(lines: &Vec<String>, excluded: &Vec<u32>) -> (r: Result<RecordGroups, LoadError>)
    ensures
        r.is_ok() ==> forall|i: int| 0 <= i < lines@.len() ==> !line_malformed(#[trigger] lines@[i]@, excluded@),
        r.is_ok() ==> r.unwrap().wf(),
        r.is_ok() ==> exists|rs: Seq<BenchRecord>| #[trigger] tuples(rs) == kept_lines(lines@, excluded@)
            && r.unwrap().groups(rs),
        r.is_err() ==> r.unwrap_err().line() < lines@.len()
            && line_malformed(lines@[r.unwrap_err().line() as int]@, excluded@)
            && forall|i: int| 0 <= i < r.unwrap_err().line() ==> !line_malformed(#[trigger] lines@[i]@, excluded@),
{
    let mut recs: Vec<BenchRecord> = Vec::new();
    let mut i: usize = 0;
    while i < lines.len()
        invariant
            i <= lines@.len(),
            forall|j: int| 0 <= j < i ==> !line_malformed(#[trigger] lines@[j]@, excluded@),
            tuples(recs@) == kept_lines(lines@.subrange(0, i as int), excluded@),
        decreases lines.len() - i,
    {
        let ghost before = lines@.subrange(0, i as int);
        assert(lines@.subrange(0, i + 1).drop_last() =~= before);
        assert(lines@.subrange(0, i + 1).last() == lines@[i as int]);
        let e = match event_from_line(lines[i].as_str()) {
            Some(e) => e,
            None => return Err(LoadError::MalformedRecord { line: i }),
        };
        let out = record_from_fields(opt_str(&e.reason), opt_str(&e.id), opt_str(&e.estimate), excluded, i);
        match out {
            Err(err) => {
                return Err(err);
            },
            Ok(None) => {},
            Ok(Some(rec)) => {
                let ghost old_recs = recs@;
                recs.push(rec);
                assert(tuples(recs@) =~= tuples(old_recs).push(crate::loader::record_tuple(rec)));
            },
        }
        i = i + 1;
    }
    assert(lines@.subrange(0, lines@.len() as int) =~= lines@);
    let g = group_records(&recs);
    assert(g.groups(recs@));
    Ok(g)
}


proof fn lemma_kept_lines_not_excluded(lines: Seq<String>, excluded: Seq<u32>)
    ensures
        forall|i: int| 0 <= i < kept_lines(lines, excluded).len()
            ==> !excluded.contains(#[trigger] kept_lines(lines, excluded)[i].2 as u32),
    decreases lines.len(),
{
    if lines.len() > 0 {
        let prev = kept_lines(lines.drop_last(), excluded);
        lemma_kept_lines_not_excluded(lines.drop_last(), excluded);
        match line_outcome(lines.last()@, excluded) {
            Some(Some(t)) => {
                let (a, b, c) = line_fields(lines.last()@).unwrap();
                assert(!excluded.contains(t.2 as u32));
                assert forall|i: int| 0 <= i < prev.push(t).len()
                    implies !excluded.contains(#[trigger] prev.push(t)[i].2 as u32) by {
                    if i < prev.len() {
                        assert(prev.push(t)[i] == prev[i]);
                    }
                }
            },
            _ => {},
        }
    }
}

/// A record whose size is excluded never reaches a group: every record in the
/// groups that `load_data` returns has a size outside `excluded`.
pub proof fn lemma_excluded_sizes_absent(
    lines: Seq<String>,
    excluded: Seq<u32>,
    g: RecordGroups,
    rs: Seq<BenchRecord>,
    k: int,
    j: int,
)
    requires
        tuples(rs) == kept_lines(lines, excluded),
        g.groups(rs),
        0 <= k < g.buckets@.len(),
        0 <= j < g.buckets@[k]@.len(),
    ensures
        !excluded.contains(g.buckets@[k]@[j].num_bytes),
{
    let key = g.keys@[k]@;
    let pred = |r: BenchRecord| crate::record::record_key(r) == key;
    assert(g.buckets@[k]@ == with_key(rs, key));
    assert(rs.filter(pred).contains(g.buckets@[k]@[j])) by {
        assert(rs.filter(pred)[j] == g.buckets@[k]@[j]);
    }
    rs.lemma_filter_contains_rev(pred, g.buckets@[k]@[j]);
    let i = choose|i: int| 0 <= i < rs.len() && rs[i] == g.buckets@[k]@[j];
    lemma_kept_lines_not_excluded(lines, excluded);
    assert(tuples(rs)[i] == crate::loader::record_tuple(rs[i]));
    assert(tuples(rs)[i] == kept_lines(lines, excluded)[i]);
    assert(!excluded.contains(kept_lines(lines, excluded)[i].2 as u32));
}

} // verus!
