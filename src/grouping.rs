use vstd::prelude::*;

use crate::record::{group_key, record_key, same_text, BenchRecord};
use crate::text::{lemma_lex_irreflexive, lemma_lex_total, lemma_lex_transitive, lex_lt, text_lt};

verus! {

/// Keys in strictly ascending text order.
pub open spec fn strictly_sorted(keys: Seq<String>) -> bool {
    forall|i: int, j: int| 0 <= i < j < keys.len() ==> lex_lt(#[trigger] keys[i]@, #[trigger] keys[j]@)
}

/// The records of `recs` with grouping key `k`, in their order.
pub open spec fn with_key(recs: Seq<BenchRecord>, k: Seq<char>) -> Seq<BenchRecord> {
    recs.filter(|r: BenchRecord| record_key(r) == k)
}

/// Whether some key of `keys` is `k`.
pub open spec fn has_key(keys: Seq<String>, k: Seq<char>) -> bool {
    exists|g: int| 0 <= g < keys.len() && #[trigger] keys[g]@ == k
}

/// Records gathered by grouping key, the keys in ascending text order.
#[derive(Debug)]
pub struct RecordGroups {
    pub keys: Vec<String>,
    pub buckets: Vec<Vec<BenchRecord>>,
}

impl RecordGroups {
    /// One non-empty bucket per key.
    pub open spec fn wf(self) -> bool {
        &&& self.keys@.len() == self.buckets@.len()
        &&& forall|g: int| 0 <= g < self.buckets@.len() ==> (#[trigger] self.buckets@[g])@.len() > 0
    }

    /// These are the groups of `recs`: one non-empty bucket per distinct key, holding
    /// exactly that key's records in their order in `recs`.
    pub open spec fn groups(self, recs: Seq<BenchRecord>) -> bool {
        &&& self.keys@.len() == self.buckets@.len()
        &&& strictly_sorted(self.keys@)
        &&& forall|g: int| 0 <= g < self.keys@.len() ==> (#[trigger] self.buckets@[g])@ == with_key(recs, self.keys@[g]@)
        &&& forall|g: int| 0 <= g < self.keys@.len() ==> (#[trigger] self.buckets@[g])@.len() > 0
        &&& forall|i: int| 0 <= i < recs.len() ==> has_key(self.keys@, record_key(#[trigger] recs[i]))
    }
}

proof fn lemma_with_key_push(recs: Seq<BenchRecord>, r: BenchRecord, k: Seq<char>)
    ensures
        with_key(recs.push(r), k) == (if record_key(r) == k { with_key(recs, k).push(r) } else { with_key(recs, k) }),
{
    reveal(Seq::filter);
    assert(recs.push(r).drop_last() =~= recs);
}

proof fn lemma_with_key_absent(recs: Seq<BenchRecord>, k: Seq<char>)
    requires
        forall|i: int| 0 <= i < recs.len() ==> record_key(#[trigger] recs[i]) != k,
    ensures
        with_key(recs, k) == Seq::<BenchRecord>::empty(),
{
    let pred = |r: BenchRecord| record_key(r) == k;
    assert(recs.all(|x: BenchRecord| !pred(x)));
    recs.lemma_all_neg_filter_empty(pred);
    assert(with_key(recs, k) =~= Seq::<BenchRecord>::empty());
}

/// Gathers records into groups by the key `bench_name/num_bytes`.
pub fn group_records(records: &Vec<BenchRecord>) -> (r: RecordGroups)
    ensures
        r.groups(records@),
        r.wf(),
{
    let mut keys: Vec<String> = Vec::new();
    let mut buckets: Vec<Vec<BenchRecord>> = Vec::new();
    let mut i: usize = 0;
    proof {
        assert(records@.subrange(0, 0) =~= Seq::<BenchRecord>::empty());
    }
    while i < records.len()
        invariant
            i <= records@.len(),
            (RecordGroups { keys, buckets }).groups(records@.subrange(0, i as int)),
        decreases records.len() - i,
    {
        let ghost recs = records@.subrange(0, i as int);
        let ghost old_keys = keys@;
        let ghost old_buckets = buckets@;
        let rec = records[i].duplicate();
        let key = group_key(rec.bench_name.as_str(), rec.num_bytes);
        assert(records@.subrange(0, i + 1) =~= recs.push(rec));
        let mut p: usize = 0;
        while p < keys.len() && text_lt(keys[p].as_str(), key.as_str())
            invariant
                p <= keys@.len(),
                forall|q: int| 0 <= q < p ==> lex_lt(#[trigger] keys@[q]@, key@),
            decreases keys.len() - p,
        {
            p = p + 1;
        }
        if p < keys.len() && same_text(keys[p].as_str(), key.as_str()) {
            let mut b = buckets.remove(p);
            b.push(rec);
            buckets.insert(p, b);
            proof {
                assert(buckets@ =~= old_buckets.update(p as int, b));
                assert forall|g: int| 0 <= g < keys@.len() implies (#[trigger] buckets@[g])@ == with_key(recs.push(rec), keys@[g]@) by {
                    lemma_with_key_push(recs, rec, keys@[g]@);
                    if g != p {
                        if g < p {
                            lemma_lex_irreflexive(keys@[g]@);
                        } else {
                            lemma_lex_irreflexive(keys@[p as int]@);
                        }
                    }
                }
                assert forall|j: int| 0 <= j < recs.push(rec).len() implies has_key(keys@, record_key(#[trigger] recs.push(rec)[j])) by {
                    if j < recs.len() {
                        assert(recs.push(rec)[j] == recs[j]);
                        assert(has_key(old_keys, record_key(recs[j])));
                    } else {
                        assert(keys@[p as int]@ == record_key(recs.push(rec)[j]));
                    }
                }
                assert forall|g: int| 0 <= g < keys@.len() implies (#[trigger] buckets@[g])@.len() > 0 by {
                    if g != p {
                        assert(buckets@[g] == old_buckets[g]);
                    }
                }
                assert((RecordGroups { keys, buckets }).groups(recs.push(rec)));
            }
        } else {
            proof {
                if p < keys@.len() {
                    lemma_lex_total(keys@[p as int]@, key@);
                }
                assert forall|g: int| 0 <= g < old_keys.len() implies #[trigger] old_keys[g]@ != key@ by {
                    if g < p {
                        lemma_lex_irreflexive(key@);
                    } else {
                        if g > p {
                            lemma_lex_transitive(key@, old_keys[p as int]@, old_keys[g]@);
                        }
                        lemma_lex_irreflexive(key@);
                    }
                }
                assert forall|j: int| 0 <= j < recs.len() implies record_key(#[trigger] recs[j]) != key@ by {
                    assert(has_key(old_keys, record_key(recs[j])));
                    let g = choose|g: int| 0 <= g < old_keys.len() && #[trigger] old_keys[g]@ == record_key(recs[j]);
                }
                lemma_with_key_absent(recs, key@);
                lemma_with_key_push(recs, rec, key@);
            }
            let ghost new_key = key;
            keys.insert(p, key);
            let mut b: Vec<BenchRecord> = Vec::new();
            b.push(rec);
            buckets.insert(p, b);
            proof {
                assert(with_key(recs.push(rec), new_key@) =~= b@);
                assert forall|x: int, y: int| 0 <= x < y < keys@.len() implies lex_lt(#[trigger] keys@[x]@, #[trigger] keys@[y]@) by {
                    if y < p {
                        assert(keys@[x] == old_keys[x]);
                        assert(keys@[y] == old_keys[y]);
                    } else if x < p && y == p {
                    } else if x < p && y > p {
                        assert(keys@[x] == old_keys[x]);
                        assert(keys@[y] == old_keys[y - 1]);
                        assert(lex_lt(old_keys[x]@, old_keys[y - 1]@));
                    } else if x == p {
                        assert(keys@[y] == old_keys[y - 1]);
                        if y - 1 > p {
                            lemma_lex_transitive(new_key@, old_keys[p as int]@, old_keys[y - 1]@);
                        }
                    } else {
                        assert(keys@[x] == old_keys[x - 1]);
                        assert(keys@[y] == old_keys[y - 1]);
                    }
                }
                assert forall|g: int| 0 <= g < keys@.len() implies (#[trigger] buckets@[g])@ == with_key(recs.push(rec), keys@[g]@) by {
                    if g < p {
                        lemma_with_key_push(recs, rec, keys@[g]@);
                    } else if g > p {
                        assert(keys@[g] == old_keys[g - 1]);
                        assert(buckets@[g] == old_buckets[g - 1]);
                        lemma_with_key_push(recs, rec, keys@[g]@);
                    }
                }
                assert forall|g: int| 0 <= g < keys@.len() implies (#[trigger] buckets@[g])@.len() > 0 by {
                    if g > p {
                        assert(buckets@[g] == old_buckets[g - 1]);
                    }
                }
                assert forall|j: int| 0 <= j < recs.push(rec).len() implies has_key(keys@, record_key(#[trigger] recs.push(rec)[j])) by {
                    if j < recs.len() {
                        assert(recs.push(rec)[j] == recs[j]);
                        assert(has_key(old_keys, record_key(recs[j])));
                        let g = choose|g: int| 0 <= g < old_keys.len() && #[trigger] old_keys[g]@ == record_key(recs[j]);
                        if g < p {
                            assert(keys@[g] == old_keys[g]);
                        } else {
                            assert(keys@[g + 1] == old_keys[g]);
                        }
                    } else {
                        assert(keys@[p as int]@ == record_key(recs.push(rec)[j]));
                    }
                }
                assert((RecordGroups { keys, buckets }).groups(recs.push(rec)));
            }
        }
        i = i + 1;
    }
    assert(records@.subrange(0, records@.len() as int) =~= records@);
    RecordGroups { keys, buckets }
}


/// Every record lands in exactly one group: the one whose key is its
/// `bench_name/num_bytes`, and it is in that group's bucket.
pub proof fn lemma_record_in_one_group(g: RecordGroups, recs: Seq<BenchRecord>, i: int)
    requires
        g.groups(recs),
        0 <= i < recs.len(),
    ensures
        exists|k: int| 0 <= k < g.keys@.len() && #[trigger] g.keys@[k]@ == record_key(recs[i])
            && g.buckets@[k]@.contains(recs[i])
            && forall|k2: int| 0 <= k2 < g.keys@.len() && #[trigger] g.keys@[k2]@ == record_key(recs[i]) ==> k2 == k,
{
    let k = choose|k: int| 0 <= k < g.keys@.len() && #[trigger] g.keys@[k]@ == record_key(recs[i]);
    let key = record_key(recs[i]);
    let pred = |r: BenchRecord| record_key(r) == key;
    recs.lemma_filter_contains(pred, i);
    assert(g.buckets@[k]@ == with_key(recs, g.keys@[k]@));
    assert forall|k2: int| 0 <= k2 < g.keys@.len() && #[trigger] g.keys@[k2]@ == record_key(recs[i]) implies k2 == k by {
        if k2 < k {
            assert(lex_lt(g.keys@[k2]@, g.keys@[k]@));
            lemma_lex_irreflexive(key);
        } else if k2 > k {
            assert(lex_lt(g.keys@[k]@, g.keys@[k2]@));
            lemma_lex_irreflexive(key);
        }
    }
}


/// The number of records over all buckets.
pub open spec fn total_len(buckets: Seq<Vec<BenchRecord>>) -> nat
    decreases buckets.len(),
{
    if buckets.len() == 0 {
        0
    } else {
        total_len(buckets.drop_last()) + buckets.last()@.len()
    }
}

spec fn key_views(keys: Seq<String>) -> Seq<Seq<char>> {
    keys.map_values(|k: String| k@)
}

spec fn sum_with_keys(recs: Seq<BenchRecord>, keys: Seq<Seq<char>>) -> nat
    decreases keys.len(),
{
    if keys.len() == 0 {
        0
    } else {
        sum_with_keys(recs, keys.drop_last()) + with_key(recs, keys.last()).len()
    }
}

spec fn count_key(keys: Seq<Seq<char>>, k: Seq<char>) -> nat
    decreases keys.len(),
{
    if keys.len() == 0 {
        0
    } else {
        count_key(keys.drop_last(), k) + (if keys.last() == k { 1nat } else { 0 })
    }
}

proof fn lemma_sum_push(recs: Seq<BenchRecord>, r: BenchRecord, keys: Seq<Seq<char>>)
    ensures
        sum_with_keys(recs.push(r), keys) == sum_with_keys(recs, keys) + count_key(keys, record_key(r)),
    decreases keys.len(),
{
    if keys.len() > 0 {
        lemma_sum_push(recs, r, keys.drop_last());
        lemma_with_key_push(recs, r, keys.last());
    }
}

proof fn lemma_count_distinct(keys: Seq<Seq<char>>, k: Seq<char>)
    requires
        forall|i: int, j: int| 0 <= i < j < keys.len() ==> keys[i] != keys[j],
    ensures
        count_key(keys, k) == (if keys.contains(k) { 1nat } else { 0 }),
    decreases keys.len(),
{
    if keys.len() > 0 {
        let p = keys.drop_last();
        assert forall|i: int, j: int| 0 <= i < j < p.len() implies p[i] != p[j] by {
            assert(p[i] == keys[i] && p[j] == keys[j]);
        }
        lemma_count_distinct(p, k);
        if keys.last() == k {
            if p.contains(k) {
                let i = choose|i: int| 0 <= i < p.len() && p[i] == k;
                assert(keys[i] == keys[keys.len() - 1]);
            }
            assert(keys.contains(k)) by { assert(keys[keys.len() - 1] == k); }
        } else {
            if keys.contains(k) {
                let i = choose|i: int| 0 <= i < keys.len() && keys[i] == k;
                assert(p[i] == k);
            }
            if p.contains(k) {
                let i = choose|i: int| 0 <= i < p.len() && p[i] == k;
                assert(keys[i] == k);
            }
        }
    }
}

proof fn lemma_sum_covers(recs: Seq<BenchRecord>, keys: Seq<Seq<char>>)
    requires
        forall|i: int, j: int| 0 <= i < j < keys.len() ==> keys[i] != keys[j],
        forall|i: int| 0 <= i < recs.len() ==> keys.contains(record_key(#[trigger] recs[i])),
    ensures
        sum_with_keys(recs, keys) == recs.len(),
    decreases recs.len(),
{
    if recs.len() == 0 {
        assert(recs =~= Seq::<BenchRecord>::empty());
        lemma_sum_empty(keys);
    } else {
        let p = recs.drop_last();
        assert forall|i: int| 0 <= i < p.len() implies keys.contains(record_key(#[trigger] p[i])) by {
            assert(p[i] == recs[i]);
        }
        lemma_sum_covers(p, keys);
        assert(recs == p.push(recs.last()));
        lemma_sum_push(p, recs.last(), keys);
        lemma_count_distinct(keys, record_key(recs.last()));
        assert(keys.contains(record_key(recs[recs.len() - 1])));
    }
}

proof fn lemma_sum_empty(keys: Seq<Seq<char>>)
    ensures
        sum_with_keys(Seq::<BenchRecord>::empty(), keys) == 0,
    decreases keys.len(),
{
    if keys.len() > 0 {
        lemma_sum_empty(keys.drop_last());
        lemma_with_key_absent(Seq::<BenchRecord>::empty(), keys.last());
    }
}

proof fn lemma_total_is_sum(buckets: Seq<Vec<BenchRecord>>, keys: Seq<String>, recs: Seq<BenchRecord>)
    requires
        buckets.len() == keys.len(),
        forall|g: int| 0 <= g < keys.len() ==> (#[trigger] buckets[g])@ == with_key(recs, keys[g]@),
    ensures
        total_len(buckets) == sum_with_keys(recs, key_views(keys)),
    decreases keys.len(),
{
    if keys.len() > 0 {
        let kb = buckets.drop_last();
        let kk = keys.drop_last();
        assert forall|g: int| 0 <= g < kk.len() implies (#[trigger] kb[g])@ == with_key(recs, kk[g]@) by {
            assert(kb[g] == buckets[g] && kk[g] == keys[g]);
        }
        lemma_total_is_sum(kb, kk, recs);
        assert(key_views(keys).drop_last() =~= key_views(kk));
        assert(buckets.last()@ == with_key(recs, keys.last()@));
    }
}

/// No record is lost or doubled: the buckets together hold exactly as many
/// records as were grouped.
pub proof fn lemma_groups_hold_every_record(g: RecordGroups, recs: Seq<BenchRecord>)
    requires
        g.groups(recs),
    ensures
        total_len(g.buckets@) == recs.len(),
{
    let kv = key_views(g.keys@);
    lemma_total_is_sum(g.buckets@, g.keys@, recs);
    assert forall|i: int, j: int| 0 <= i < j < kv.len() implies kv[i] != kv[j] by {
        assert(lex_lt(g.keys@[i]@, g.keys@[j]@));
        lemma_lex_irreflexive(g.keys@[i]@);
    }
    assert forall|i: int| 0 <= i < recs.len() implies kv.contains(record_key(#[trigger] recs[i])) by {
        assert(has_key(g.keys@, record_key(recs[i])));
        let k = choose|k: int| 0 <= k < g.keys@.len() && #[trigger] g.keys@[k]@ == record_key(recs[i]);
        assert(kv[k] == record_key(recs[i]));
    }
    lemma_sum_covers(recs, kv);
}

} // verus!
