use vstd::prelude::*;

use crate::grouping::{has_key, strictly_sorted, RecordGroups};
use crate::record::same_text;
use crate::text::{dec_chars, decimal_text, lemma_lex_asymmetric, lemma_lex_irreflexive, lemma_lex_total, lemma_lex_transitive, lex_lt, text_lt};

verus! {

/// Number of colors in the palette.
pub const PALETTE_LEN: usize = 5;

/// The palette, in its written order; colors are handed out from its end.
pub open spec fn palette() -> Seq<Seq<char>> {
    seq!["#3AB795"@, "#A0E8AF"@, "#86BAA1"@, "#EDEAD0"@, "#FFCF56"@]
}

/// The color of the `i`-th variant in ascending name order.
pub open spec fn color_for_rank(i: int) -> Seq<char> {
    palette()[PALETTE_LEN - 1 - i]
}

fn palette_color(i: usize) -> (r: String)
    requires
        i < PALETTE_LEN,
    ensures
        r@ == palette()[i as int],
{
    if i == 0 {
        String::from_str("#3AB795")
    } else if i == 1 {
        String::from_str("#A0E8AF")
    } else if i == 2 {
        String::from_str("#86BAA1")
    } else if i == 3 {
        String::from_str("#EDEAD0")
    } else {
        String::from_str("#FFCF56")
    }
}

#[derive(Debug, Clone, Copy, PartialEq, Eq)]
pub enum ModelError {
    /// More distinct variants than palette colors.
    PaletteExhausted,
}

/// Adds `s` to the ascending list `names` unless it is already there.
pub fn insert_sorted(names: &mut Vec<String>, s: String)
    requires
        strictly_sorted(old(names)@),
    ensures
        strictly_sorted(final(names)@),
        forall|k: Seq<char>| has_key(final(names)@, k) <==> (has_key(old(names)@, k) || k == s@),
{
    let ghost old_names = names@;
    let mut p: usize = 0;
    while p < names.len() && text_lt(names[p].as_str(), s.as_str())
        invariant
            names@ == old_names,
            p <= names@.len(),
            forall|q: int| 0 <= q < p ==> lex_lt(#[trigger] names@[q]@, s@),
        decreases names.len() - p,
    {
        p = p + 1;
    }
    if p < names.len() && same_text(names[p].as_str(), s.as_str()) {
        assert forall|k: Seq<char>| has_key(names@, k) <==> (has_key(old_names, k) || k == s@) by {
            if k == s@ {
                assert(names@[p as int]@ == k);
            }
        }
        return;
    }
    proof {
        if p < names@.len() {
            lemma_lex_total(names@[p as int]@, s@);
        }
    }
    let ghost new_s = s@;
    let ghost new_str = s;
    names.insert(p, s);
    assert forall|x: int, y: int| 0 <= x < y < names@.len() implies lex_lt(#[trigger] names@[x]@, #[trigger] names@[y]@) by {
        if y < p {
            assert(names@[x] == old_names[x]);
            assert(names@[y] == old_names[y]);
        } else if x < p && y == p {
        } else if x < p && y > p {
            assert(names@[x] == old_names[x]);
            assert(names@[y] == old_names[y - 1]);
            assert(lex_lt(old_names[x]@, old_names[y - 1]@));
        } else if x == p {
            assert(names@[y] == old_names[y - 1]);
            if y - 1 > p {
                lemma_lex_transitive(new_s, old_names[p as int]@, old_names[y - 1]@);
            }
        } else {
            assert(names@[x] == old_names[x - 1]);
            assert(names@[y] == old_names[y - 1]);
        }
    }
    assert(names@[p as int] == new_str);
    assert forall|k: Seq<char>| has_key(names@, k) <==> (has_key(old_names, k) || k == new_s) by {
        if has_key(old_names, k) {
            let g = choose|g: int| 0 <= g < old_names.len() && #[trigger] old_names[g]@ == k;
            if g < p {
                assert(names@[g] == old_names[g]);
            } else {
                assert(names@[g + 1] == old_names[g]);
            }
        }
        if k == new_s {
            assert(names@[p as int]@ == k);
        }
        if has_key(names@, k) {
            let g = choose|g: int| 0 <= g < names@.len() && #[trigger] names@[g]@ == k;
            if g < p {
                assert(names@[g] == old_names[g]);
            } else if g > p {
                assert(names@[g] == old_names[g - 1]);
            }
        }
    }
}


/// Whether some record of the groups is of variant `v`.
pub open spec fn has_variant(groups: RecordGroups, v: Seq<char>) -> bool {
    exists|g: int, j: int| 0 <= g < groups.buckets@.len() && 0 <= j < groups.buckets@[g]@.len()
        && #[trigger] groups.buckets@[g]@[j].variant@ == v
}

/// The distinct variant names of all records, in ascending order.
pub fn distinct_variants(groups: &RecordGroups) -> (r: Vec<String>)
    ensures
        strictly_sorted(r@),
        forall|v: Seq<char>| has_key(r@, v) <==> has_variant(*groups, v),
{
    let mut names: Vec<String> = Vec::new();
    let mut g: usize = 0;
    while g < groups.buckets.len()
        invariant
            g <= groups.buckets@.len(),
            strictly_sorted(names@),
            forall|v: Seq<char>| has_key(names@, v) <==> exists|x: int, j: int| 0 <= x < g && 0 <= j < groups.buckets@[x]@.len()
                && #[trigger] groups.buckets@[x]@[j].variant@ == v,
        decreases groups.buckets.len() - g,
    {
        let bucket = &groups.buckets[g];
        let mut j: usize = 0;
        while j < bucket.len()
            invariant
                g < groups.buckets@.len(),
                *bucket == groups.buckets@[g as int],
                j <= bucket@.len(),
                strictly_sorted(names@),
                forall|v: Seq<char>| has_key(names@, v) <==> (exists|x: int, i: int| 0 <= x < g && 0 <= i < groups.buckets@[x]@.len()
                    && #[trigger] groups.buckets@[x]@[i].variant@ == v) || (exists|i: int| 0 <= i < j
                    && #[trigger] bucket@[i].variant@ == v),
            decreases bucket.len() - j,
        {
            insert_sorted(&mut names, bucket[j].variant.clone());
            assert forall|v: Seq<char>| has_key(names@, v) <==> (exists|x: int, i: int| 0 <= x < g && 0 <= i < groups.buckets@[x]@.len()
                    && #[trigger] groups.buckets@[x]@[i].variant@ == v) || (exists|i: int| 0 <= i < j + 1
                    && #[trigger] bucket@[i].variant@ == v) by {
                if exists|i: int| 0 <= i < j + 1 && #[trigger] bucket@[i].variant@ == v {
                    let i = choose|i: int| 0 <= i < j + 1 && #[trigger] bucket@[i].variant@ == v;
                    if i < j {
                        assert(exists|i: int| 0 <= i < j && #[trigger] bucket@[i].variant@ == v);
                    }
                }
            }
            j = j + 1;
        }
        assert forall|v: Seq<char>| has_key(names@, v) <==> exists|x: int, i: int| 0 <= x < g + 1 && 0 <= i < groups.buckets@[x]@.len()
                && #[trigger] groups.buckets@[x]@[i].variant@ == v by {
            if exists|x: int, i: int| 0 <= x < g + 1 && 0 <= i < groups.buckets@[x]@.len()
                && #[trigger] groups.buckets@[x]@[i].variant@ == v {
                let (x, i) = choose|x: int, i: int| 0 <= x < g + 1 && 0 <= i < groups.buckets@[x]@.len()
                    && #[trigger] groups.buckets@[x]@[i].variant@ == v;
                if x == g {
                    assert(bucket@[i].variant@ == v);
                }
            }
        }
        g = g + 1;
    }
    names
}

/// The color of each variant: the `i`-th name in ascending order takes the palette's
/// `i`-th color counted from its end.
pub open spec fn colors_of(names: Seq<String>, colors: Seq<(String, String)>) -> bool {
    &&& colors.len() == names.len()
    &&& forall|i: int| 0 <= i < names.len() ==> (#[trigger] colors[i]).0@ == names[i]@
        && colors[i].1@ == color_for_rank(i)
}

/// Pairs each name with its color; more names than palette colors is an error.
pub fn assign_colors(names: &Vec<String>) -> (r: Result<Vec<(String, String)>, ModelError>)
    ensures
        names@.len() > PALETTE_LEN ==> r == Err::<Vec<(String, String)>, ModelError>(ModelError::PaletteExhausted),
        names@.len() <= PALETTE_LEN ==> r.is_ok() && colors_of(names@, r.unwrap()@),
{
    if names.len() > PALETTE_LEN {
        return Err(ModelError::PaletteExhausted);
    }
    let mut out: Vec<(String, String)> = Vec::new();
    let mut i: usize = 0;
    while i < names.len()
        invariant
            names@.len() <= PALETTE_LEN,
            i <= names@.len(),
            out@.len() == i,
            forall|x: int| 0 <= x < i ==> (#[trigger] out@[x]).0@ == names@[x]@ && out@[x].1@ == color_for_rank(x),
        decreases names.len() - i,
    {
        let c = palette_color(PALETTE_LEN - 1 - i);
        out.push((names[i].clone(), c));
        i = i + 1;
    }
    Ok(out)
}

proof fn lemma_sorted_min(a: Seq<String>, x: int)
    requires
        strictly_sorted(a),
        0 < x < a.len(),
    ensures
        lex_lt(a[0]@, a[x]@),
{
}

/// Two ascending lists of distinct names that hold the same names are the same list.
pub proof fn lemma_sorted_names_unique(a: Seq<String>, b: Seq<String>)
    requires
        strictly_sorted(a),
        strictly_sorted(b),
        forall|k: Seq<char>| has_key(a, k) <==> has_key(b, k),
    ensures
        a.len() == b.len(),
        forall|i: int| 0 <= i < a.len() ==> (#[trigger] a[i])@ == b[i]@,
    decreases a.len(),
{
    if a.len() == 0 {
        if b.len() > 0 {
            assert(has_key(b, b[0]@));
        }
    } else if b.len() == 0 {
        assert(has_key(a, a[0]@));
    } else {
        assert(has_key(a, a[0]@));
        assert(has_key(b, b[0]@));
        let j = choose|g: int| 0 <= g < b.len() && #[trigger] b[g]@ == a[0]@;
        let i = choose|g: int| 0 <= g < a.len() && #[trigger] a[g]@ == b[0]@;
        if j > 0 {
            lemma_sorted_min(b, j);
            if i > 0 {
                lemma_sorted_min(a, i);
                lemma_lex_asymmetric(a[0]@, a[i]@);
            } else {
                lemma_lex_irreflexive(a[0]@);
            }
        }
        let a1 = a.drop_first();
        let b1 = b.drop_first();
        assert forall|k: Seq<char>| has_key(a1, k) <==> has_key(b1, k) by {
            if has_key(a1, k) {
                let x = choose|g: int| 0 <= g < a1.len() && #[trigger] a1[g]@ == k;
                assert(a[x + 1]@ == k);
                lemma_sorted_min(a, x + 1);
                lemma_lex_irreflexive(k);
                assert(has_key(b, k));
                let y = choose|g: int| 0 <= g < b.len() && #[trigger] b[g]@ == k;
                assert(y != 0);
                assert(b1[y - 1]@ == k);
            }
            if has_key(b1, k) {
                let x = choose|g: int| 0 <= g < b1.len() && #[trigger] b1[g]@ == k;
                assert(b[x + 1]@ == k);
                lemma_sorted_min(b, x + 1);
                lemma_lex_irreflexive(k);
                assert(has_key(a, k));
                let y = choose|g: int| 0 <= g < a.len() && #[trigger] a[g]@ == k;
                assert(y != 0);
                assert(a1[y - 1]@ == k);
            }
        }
        assert(strictly_sorted(a1)) by {
            assert forall|x: int, y: int| 0 <= x < y < a1.len() implies lex_lt(#[trigger] a1[x]@, #[trigger] a1[y]@) by {
                assert(a1[x] == a[x + 1] && a1[y] == a[y + 1]);
            }
        }
        assert(strictly_sorted(b1)) by {
            assert forall|x: int, y: int| 0 <= x < y < b1.len() implies lex_lt(#[trigger] b1[x]@, #[trigger] b1[y]@) by {
                assert(b1[x] == b[x + 1] && b1[y] == b[y + 1]);
            }
        }
        lemma_sorted_names_unique(a1, b1);
        assert forall|i: int| 0 <= i < a.len() implies (#[trigger] a[i])@ == b[i]@ by {
            if i > 0 {
                assert(a[i] == a1[i - 1]);
                assert(b[i] == b1[i - 1]);
            }
        }
    }
}

/// The variant colors of `groups`: the names in ascending order, exactly the
/// variants of the records, the `i`-th paired with the palette's `i`-th color from its end.
pub open spec fn variant_colors(groups: RecordGroups, colors: Seq<(String, String)>) -> bool {
    &&& forall|i: int, j: int| 0 <= i < j < colors.len() ==> lex_lt(#[trigger] colors[i].0@, #[trigger] colors[j].0@)
    &&& forall|v: Seq<char>| has_color(colors, v) <==> has_variant(groups, v)
    &&& forall|i: int| 0 <= i < colors.len() ==> (#[trigger] colors[i]).1@ == color_for_rank(i)
}

pub open spec fn color_names(colors: Seq<(String, String)>) -> Seq<String> {
    colors.map_values(|p: (String, String)| p.0)
}

proof fn lemma_colors_of_names(groups: RecordGroups, names: Seq<String>, colors: Seq<(String, String)>)
    requires
        strictly_sorted(names),
        forall|v: Seq<char>| has_key(names, v) <==> has_variant(groups, v),
        colors_of(names, colors),
    ensures
        variant_colors(groups, colors),
{
    assert forall|v: Seq<char>| has_color(colors, v) <==> has_variant(groups, v) by {
        if has_color(colors, v) {
            let i = choose|i: int| 0 <= i < colors.len() && (#[trigger] colors[i]).0@ == v;
            assert(names[i]@ == v);
        }
        if has_key(names, v) {
            let i = choose|i: int| 0 <= i < names.len() && #[trigger] names[i]@ == v;
            assert(colors[i].0@ == v);
        }
    }
    assert forall|i: int, j: int| 0 <= i < j < colors.len() implies lex_lt(#[trigger] colors[i].0@, #[trigger] colors[j].0@) by {
        assert(lex_lt(names[i]@, names[j]@));
    }
}

proof fn lemma_color_names(groups: RecordGroups, colors: Seq<(String, String)>)
    requires
        variant_colors(groups, colors),
    ensures
        strictly_sorted(color_names(colors)),
        forall|v: Seq<char>| has_key(color_names(colors), v) <==> has_variant(groups, v),
{
    let n = color_names(colors);
    assert forall|x: int, y: int| 0 <= x < y < n.len() implies lex_lt(#[trigger] n[x]@, #[trigger] n[y]@) by {
        assert(lex_lt(colors[x].0@, colors[y].0@));
    }
    assert forall|v: Seq<char>| has_key(n, v) <==> has_variant(groups, v) by {
        if has_key(n, v) {
            let i = choose|i: int| 0 <= i < n.len() && #[trigger] n[i]@ == v;
            assert(colors[i].0@ == v);
        }
        if has_color(colors, v) {
            let i = choose|i: int| 0 <= i < colors.len() && (#[trigger] colors[i]).0@ == v;
            assert(n[i]@ == v);
        }
    }
}

/// The color assignment depends on the set of variant names alone: record groups
/// with the same variant names, whatever their records, get the same colors.
pub proof fn lemma_color_determinism(
    g1: RecordGroups,
    g2: RecordGroups,
    c1: Seq<(String, String)>,
    c2: Seq<(String, String)>,
)
    requires
        forall|v: Seq<char>| has_variant(g1, v) <==> has_variant(g2, v),
        variant_colors(g1, c1),
        variant_colors(g2, c2),
    ensures
        c1.len() == c2.len(),
        forall|i: int| 0 <= i < c1.len() ==> (#[trigger] c1[i]).0@ == c2[i].0@ && c1[i].1@ == c2[i].1@,
{
    lemma_color_names(g1, c1);
    lemma_color_names(g2, c2);
    let n1 = color_names(c1);
    let n2 = color_names(c2);
    assert forall|k: Seq<char>| has_key(n1, k) <==> has_key(n2, k) by {
        assert(has_key(n1, k) <==> has_variant(g1, k));
        assert(has_key(n2, k) <==> has_variant(g2, k));
    }
    lemma_sorted_names_unique(n1, n2);
    assert forall|i: int| 0 <= i < c1.len() implies (#[trigger] c1[i]).0@ == c2[i].0@ && c1[i].1@ == c2[i].1@ by {
        assert(n1[i]@ == n2[i]@);
    }
}

/// The label of an input size: a fixed name for the known sizes, else its decimal text.
pub open spec fn size_label(n: nat) -> Seq<char> {
    if n == 725 {
        "725b Text"@
    } else if n == 66675 {
        "66K JSON"@
    } else if n == 64723 {
        "65K Text"@
    } else if n == 9991663 {
        "10Mb Dickens"@
    } else if n == 34308 {
        "34K Text"@
    } else {
        dec_chars(n)
    }
}

/// The label of an input size.
pub fn num_bytes_to_name(num_bytes: u32) -> (r: String)
    ensures
        r@ == size_label(num_bytes as nat),
{
    if num_bytes == 725 {
        String::from_str("725b Text")
    } else if num_bytes == 66675 {
        String::from_str("66K JSON")
    } else if num_bytes == 64723 {
        String::from_str("65K Text")
    } else if num_bytes == 9991663 {
        String::from_str("10Mb Dickens")
    } else if num_bytes == 34308 {
        String::from_str("34K Text")
    } else {
        decimal_text(num_bytes as u128)
    }
}

/// One cluster of bars: its label and, per bar, the value and the fill color.
#[derive(Debug)]
pub struct Group {
    pub label: String,
    pub values_and_color: Vec<(u64, String)>,
}

/// Whether `colors` pairs the name `v` with the color `c`.
pub open spec fn color_entry(colors: Seq<(String, String)>, v: Seq<char>, c: Seq<char>) -> bool {
    exists|i: int| 0 <= i < colors.len() && (#[trigger] colors[i]).0@ == v && colors[i].1@ == c
}

/// Whether `colors` has an entry for the name `v`.
pub open spec fn has_color(colors: Seq<(String, String)>, v: Seq<char>) -> bool {
    exists|i: int| 0 <= i < colors.len() && (#[trigger] colors[i]).0@ == v
}

fn color_of(colors: &Vec<(String, String)>, v: &str) -> (r: String)
    requires
        has_color(colors@, v@),
    ensures
        color_entry(colors@, v@, r@),
{
    let mut i: usize = 0;
    while i < colors.len()
        invariant
            i <= colors@.len(),
            has_color(colors@, v@),
            forall|x: int| 0 <= x < i ==> (#[trigger] colors@[x]).0@ != v@,
        decreases colors.len() - i,
    {
        if same_text(colors[i].0.as_str(), v) {
            return colors[i].1.clone();
        }
        i = i + 1;
    }
    proof {
        let x = choose|x: int| 0 <= x < colors@.len() && (#[trigger] colors@[x]).0@ == v@;
    }
    String::new()
}

/// The groups as they are drawn: one per key, in key order, labelled by the input
/// size, each bar the throughput of one record in its order, filled with its variant's color.
pub open spec fn chart_groups(groups: RecordGroups, colors: Seq<(String, String)>, r: Seq<Group>) -> bool {
    &&& r.len() == groups.buckets@.len()
    &&& forall|g: int| 0 <= g < r.len() ==> {
        let b = #[trigger] groups.buckets@[g]@;
        &&& r[g].label@ == size_label(b[0].num_bytes as nat)
        &&& r[g].values_and_color@.len() == b.len()
        &&& forall|j: int| 0 <= j < b.len() ==> (#[trigger] r[g].values_and_color@[j]).0 == b[j].throughput
            && color_entry(colors, b[j].variant@, r[g].values_and_color@[j].1@)
    }
}

/// Builds the drawn groups from the record groups and the variant colors.
pub fn build_groups(groups: &RecordGroups, colors: &Vec<(String, String)>) -> (r: Vec<Group>)
    requires
        groups.wf(),
        forall|v: Seq<char>| has_variant(*groups, v) ==> has_color(colors@, v),
    ensures
        chart_groups(*groups, colors@, r@),
{
    let mut out: Vec<Group> = Vec::new();
    let mut g: usize = 0;
    while g < groups.buckets.len()
        invariant
            groups.wf(),
            forall|v: Seq<char>| has_variant(*groups, v) ==> has_color(colors@, v),
            g <= groups.buckets@.len(),
            out@.len() == g,
            forall|x: int| 0 <= x < g ==> {
                let b = #[trigger] groups.buckets@[x]@;
                &&& out@[x].label@ == size_label(b[0].num_bytes as nat)
                &&& out@[x].values_and_color@.len() == b.len()
                &&& forall|j: int| 0 <= j < b.len() ==> (#[trigger] out@[x].values_and_color@[j]).0 == b[j].throughput
                    && color_entry(colors@, b[j].variant@, out@[x].values_and_color@[j].1@)
            },
        decreases groups.buckets.len() - g,
    {
        let bucket = &groups.buckets[g];
        let mut bars: Vec<(u64, String)> = Vec::new();
        let mut j: usize = 0;
        while j < bucket.len()
            invariant
                g < groups.buckets@.len(),
                *bucket == groups.buckets@[g as int],
                forall|v: Seq<char>| has_variant(*groups, v) ==> has_color(colors@, v),
                j <= bucket@.len(),
                bars@.len() == j,
                forall|i: int| 0 <= i < j ==> (#[trigger] bars@[i]).0 == bucket@[i].throughput
                    && color_entry(colors@, bucket@[i].variant@, bars@[i].1@),
            decreases bucket.len() - j,
        {
            assert(has_variant(*groups, bucket@[j as int].variant@));
            let c = color_of(colors, bucket[j].variant.as_str());
            bars.push((bucket[j].throughput, c));
            j = j + 1;
        }
        let label = num_bytes_to_name(bucket[0].num_bytes);
        out.push(Group { label, values_and_color: bars });
        g = g + 1;
    }
    out
}

/// Builds the chart model: the drawn groups and the color of each variant.
pub fn build_chart(groups: &RecordGroups) -> (r: Result<(Vec<Group>, Vec<(String, String)>), ModelError>)
    requires
        groups.wf(),
    ensures
        match r {
            Ok((gs, colors)) => variant_colors(*groups, colors@) && chart_groups(*groups, colors@, gs@),
            Err(e) => e == ModelError::PaletteExhausted,
        },
        r.is_err() <==> exists|names: Seq<String>| strictly_sorted(names)
            && (forall|v: Seq<char>| #[trigger] has_key(names, v) <==> has_variant(*groups, v))
            && names.len() > PALETTE_LEN,
{
    let names = distinct_variants(groups);
    let colors = match assign_colors(&names) {
        Err(e) => {
            proof {
                assert(names@.len() > PALETTE_LEN);
            }
            return Err(e);
        },
        Ok(c) => c,
    };
    proof {
        assert forall|v: Seq<char>| has_variant(*groups, v) implies has_color(colors@, v) by {
            assert(has_key(names@, v));
            let i = choose|i: int| 0 <= i < names@.len() && #[trigger] names@[i]@ == v;
            assert(colors@[i].0@ == v);
        }
        assert forall|other: Seq<String>| strictly_sorted(other)
            && (forall|v: Seq<char>| #[trigger] has_key(other, v) <==> has_variant(*groups, v))
            implies other.len() <= PALETTE_LEN by {
            lemma_sorted_names_unique(names@, other);
        }
    }
    let gs = build_groups(groups, &colors);
    proof {
        lemma_colors_of_names(*groups, names@, colors@);
    }
    Ok((gs, colors))
}

} // verus!
