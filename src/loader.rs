use vstd::prelude::*;

use crate::grouping::{group_records, RecordGroups};
use crate::record::{record_from_fields, record_outcome, BenchRecord, LoadError};

verus! {

/// The fields of one input event that the loader reads; `None` where a field is
/// absent or of another JSON type.
pub struct EventFields {
    pub reason: Option<String>,
    pub id: Option<String>,
    pub estimate: Option<String>,
}

pub open spec fn opt_view(o: Option<String>) -> Option<Seq<char>> {
    match o {
        Some(t) => Some(t@),
        None => None,
    }
}

pub open spec fn event_outcome(e: EventFields, excluded: Seq<u32>) -> Option<Option<(Seq<char>, Seq<char>, nat, nat)>> {
    record_outcome(opt_view(e.reason), opt_view(e.id), opt_view(e.estimate), excluded)
}

pub open spec fn malformed(e: EventFields, excluded: Seq<u32>) -> bool {
    event_outcome(e, excluded).is_none()
}

/// A record as (name, variant, size, throughput).
pub open spec fn record_tuple(r: BenchRecord) -> (Seq<char>, Seq<char>, nat, nat) {
    (r.bench_name@, r.variant@, r.num_bytes as nat, r.throughput as nat)
}

pub open spec fn tuples(recs: Seq<BenchRecord>) -> Seq<(Seq<char>, Seq<char>, nat, nat)> {
    recs.map_values(|b: BenchRecord| record_tuple(b))
}

/// The records that the events yield, in their order.
pub open spec fn kept(evs: Seq<EventFields>, excluded: Seq<u32>) -> Seq<(Seq<char>, Seq<char>, nat, nat)>
    decreases evs.len(),
{
    if evs.len() == 0 {
        Seq::empty()
    } else {
        let prev = kept(evs.drop_last(), excluded);
        match event_outcome(evs.last(), excluded) {
            Some(Some(t)) => prev.push(t),
            _ => prev,
        }
    }
}

pub fn opt_str(o: &Option<String>) -> (r: Option<&str>)
    ensures
        match o {
            Some(t) => r.is_some() && r.unwrap()@ == t@,
            None => r.is_none(),
        },
{
    match o {
        Some(t) => Some(t.as_str()),
        None => None,
    }
}

/// Reads the events in order and groups the records they yield. The first
/// malformed event stops the load with its index.
pub fn load_events(events: &Vec<EventFields>, excluded: &Vec<u32>) -> (r: Result<RecordGroups, LoadError>)
    ensures
        r.is_ok() ==> forall|i: int| 0 <= i < events@.len() ==> !malformed(#[trigger] events@[i], excluded@),
        r.is_ok() ==> r.unwrap().wf(),
        r.is_ok() ==> exists|rs: Seq<BenchRecord>| #[trigger] tuples(rs) == kept(events@, excluded@)
            && r.unwrap().groups(rs),
        r.is_err() ==> r.unwrap_err().line() < events@.len()
            && malformed(events@[r.unwrap_err().line() as int], excluded@)
            && forall|i: int| 0 <= i < r.unwrap_err().line() ==> !malformed(#[trigger] events@[i], excluded@),
{
    let mut recs: Vec<BenchRecord> = Vec::new();
    let mut i: usize = 0;
    while i < events.len()
        invariant
            i <= events@.len(),
            forall|j: int| 0 <= j < i ==> !malformed(#[trigger] events@[j], excluded@),
            tuples(recs@) == kept(events@.subrange(0, i as int), excluded@),
        decreases events.len() - i,
    {
        let e = &events[i];
        let ghost before = events@.subrange(0, i as int);
        assert(events@.subrange(0, i + 1).drop_last() =~= before);
        assert(events@.subrange(0, i + 1).last() == events@[i as int]);
        let out = record_from_fields(opt_str(&e.reason), opt_str(&e.id), opt_str(&e.estimate), excluded, i);
        match out {
            Err(err) => {
                return Err(err);
            },
            Ok(None) => {},
            Ok(Some(rec)) => {
                let ghost old_recs = recs@;
                recs.push(rec);
                assert(tuples(recs@) =~= tuples(old_recs).push(record_tuple(rec)));
            },
        }
        i = i + 1;
    }
    assert(events@.subrange(0, events@.len() as int) =~= events@);
    let g = group_records(&recs);
    assert(tuples(recs@) == kept(events@, excluded@));
    assert(g.groups(recs@));
    Ok(g)
}

} // verus!
