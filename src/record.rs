use vstd::prelude::*;

use crate::text::{dec_chars, decimal_text, lemma_lex_irreflexive, lemma_lex_total, pow10, text_lt, lemma_pow10_monotone, lemma_pow10_positive};

verus! {

/// The `reason` of the records that carry a finished measurement.
pub open spec fn complete_reason() -> Seq<char> {
    "benchmark-complete"@
}

pub open spec fn is_digit(c: char) -> bool {
    48 <= (c as int) <= 57
}

pub open spec fn all_digits(s: Seq<char>) -> bool {
    forall|i: int| 0 <= i < s.len() ==> is_digit(#[trigger] s[i])
}

/// Value of a run of decimal digits.
pub open spec fn digits_value(s: Seq<char>) -> nat
    decreases s.len(),
{
    if s.len() == 0 {
        0
    } else {
        digits_value(s.drop_last()) * 10 + ((s.last() as int - 48) as nat)
    }
}

/// Index of the first `c` at or after `from`, or the length when there is none.
pub open spec fn find_char(s: Seq<char>, c: char, from: int) -> int
    decreases s.len() - from,
{
    if from >= s.len() {
        s.len() as int
    } else if s[from] == c {
        from
    } else {
        find_char(s, c, from + 1)
    }
}

/// A non-empty run of digits whose value is at most `limit`.
pub open spec fn number_of(s: Seq<char>, limit: nat) -> Option<nat> {
    if s.len() > 0 && all_digits(s) && digits_value(s) <= limit {
        Some(digits_value(s))
    } else {
        None
    }
}

/// An input size: a run of digits, optionally after one `+`, whose value fits in `u32`.
pub open spec fn size_of(s: Seq<char>) -> Option<nat> {
    if s.len() > 0 && s[0] == '+' {
        number_of(s.drop_first(), u32::MAX as nat)
    } else {
        number_of(s, u32::MAX as nat)
    }
}

/// The three leading `/`-separated components of a record id.
pub open spec fn id_parts(id: Seq<char>) -> Option<(Seq<char>, Seq<char>, Seq<char>)> {
    let i = find_char(id, '/', 0);
    let j = find_char(id, '/', i + 1);
    let k = find_char(id, '/', j + 1);
    if i < id.len() && j < id.len() {
        Some((id.subrange(0, i), id.subrange(i + 1, j), id.subrange(j + 1, k)))
    } else {
        None
    }
}

/// Most fractional digits, and largest exponent, that a duration may carry.
pub const MAX_FRACTION_DIGITS: u32 = 400;

/// A decimal written `digits` or `digits.digits`, as `(m, k)` with value `m / 10^k`.
pub open spec fn decimal_of(s: Seq<char>) -> Option<(nat, nat)> {
    let p = find_char(s, '.', 0);
    let whole = s.subrange(0, p);
    let frac = if p < s.len() { s.subrange(p + 1, s.len() as int) } else { Seq::empty() };
    if whole.len() > 0 && all_digits(whole) && (p == s.len() || frac.len() > 0)
        && all_digits(frac) && frac.len() <= MAX_FRACTION_DIGITS
        && digits_value(whole + frac) <= u64::MAX {
        Some((digits_value(whole + frac), frac.len()))
    } else {
        None
    }
}

/// An exponent: digits, optionally after one `-` or `+`.
pub open spec fn exponent_of(t: Seq<char>) -> Option<int> {
    if t.len() > 0 && (t[0] == '-' || t[0] == '+') {
        match number_of(t.drop_first(), MAX_FRACTION_DIGITS as nat) {
            Some(v) => Some(if t[0] == '-' { -v } else { v as int }),
            None => None,
        }
    } else {
        match number_of(t, MAX_FRACTION_DIGITS as nat) {
            Some(v) => Some(v as int),
            None => None,
        }
    }
}

/// A duration as JSON numbers are written: a decimal, optionally followed by `e`
/// and an exponent; as `(m, e)` with value `m * 10^e`.
pub open spec fn duration_of(s: Seq<char>) -> Option<(nat, int)> {
    let q = find_char(s, 'e', 0);
    match decimal_of(s.subrange(0, q)) {
        None => None,
        Some((m, k)) => if q == s.len() {
            Some((m, -k))
        } else {
            match exponent_of(s.subrange(q + 1, s.len() as int)) {
                Some(x) => Some((m, x - k)),
                None => None,
            }
        },
    }
}

/// Most powers of ten that scale the byte count in a throughput.
pub const MAX_SCALE: i32 = 26;

/// Throughput in millionths of a byte per nanosecond, rounded down, for `bytes`
/// processed in `m * 10^e` nanoseconds.
pub open spec fn throughput_units(bytes: nat, m: nat, e: int) -> nat
    recommends
        m > 0,
{
    if e <= 6 {
        bytes * pow10((6 - e) as nat) / m
    } else {
        bytes / (m * pow10((e - 6) as nat))
    }
}

/// Whether a throughput can be computed: the duration is not zero, the byte count
/// is scaled by at most `10^MAX_SCALE`, and the result fits in `u64`.
pub open spec fn throughput_fits(bytes: nat, m: nat, e: int) -> bool {
    m > 0 && 6 - e <= MAX_SCALE && throughput_units(bytes, m, e) <= u64::MAX
}

proof fn lemma_digits_prefix_grows(s: Seq<char>, i: int)
    requires
        0 <= i <= s.len(),
    ensures
        digits_value(s.subrange(0, i)) <= digits_value(s),
    decreases s.len() - i,
{
    if i < s.len() {
        lemma_digits_prefix_grows(s, i + 1);
        assert(s.subrange(0, i + 1).drop_last() =~= s.subrange(0, i));
        assert(digits_value(s.subrange(0, i + 1)) >= digits_value(s.subrange(0, i)));
    } else {
        assert(s.subrange(0, i) =~= s);
    }
}

/// Value of `s` when it is a non-empty run of digits not above `limit`.
pub fn parse_number(s: &str, limit: u64) -> (r: Option<u64>)
    ensures
        match number_of(s@, limit as nat) {
            Some(v) => r == Some(v as u64),
            None => r.is_none(),
        },
{
    let n = s.unicode_len();
    if n == 0 {
        return None;
    }
    let mut v: u64 = 0;
    let mut i: usize = 0;
    while i < n
        invariant
            n == s@.len(),
            i <= n,
            all_digits(s@.subrange(0, i as int)),
            v as nat == digits_value(s@.subrange(0, i as int)),
            v <= limit,
        decreases n - i,
    {
        let c = s.get_char(i);
        assert(s@.subrange(0, i + 1).drop_last() =~= s@.subrange(0, i as int));
        if (c as u32) < 48 || (c as u32) > 57 {
            assert(!is_digit(s@[i as int]));
            return None;
        }
        let d = (c as u32 - 48) as u64;
        if d > limit || v > (limit - d) / 10 {
            proof {
                lemma_digits_prefix_grows(s@, i + 1);
                assert(digits_value(s@.subrange(0, i + 1)) > limit) by (nonlinear_arith)
                    requires
                        d > limit || v > (limit - d) / 10,
                        digits_value(s@.subrange(0, i + 1)) == v * 10 + d;
            }
            return None;
        }
        assert(v * 10 + d <= limit) by (nonlinear_arith)
            requires
                v <= (limit - d) / 10,
                d <= limit;
        v = v * 10 + d;
        i = i + 1;
    }
    assert(s@.subrange(0, n as int) =~= s@);
    Some(v)
}

/// Reads an input size.
pub fn parse_size(s: &str) -> (r: Option<u32>)
    ensures
        match size_of(s@) {
            Some(v) => r == Some(v as u32),
            None => r.is_none(),
        },
{
    let n = s.unicode_len();
    let digits = if n > 0 && s.get_char(0) == '+' {
        assert(s@.subrange(1, n as int) =~= s@.drop_first());
        s.substring_char(1, n)
    } else {
        s
    };
    match parse_number(digits, u32::MAX as u64) {
        Some(v) => Some(v as u32),
        None => None,
    }
}

/// Index of the first `c` at or after `from`, or the length of `s`.
pub fn find_char_from(s: &str, c: char, from: usize) -> (r: usize)
    requires
        from <= s@.len(),
    ensures
        r as int == find_char(s@, c, from as int),
{
    let n = s.unicode_len();
    let mut i = from;
    while i < n
        invariant
            n == s@.len(),
            from <= i <= n,
            find_char(s@, c, from as int) == find_char(s@, c, i as int),
        decreases n - i,
    {
        if s.get_char(i) == c {
            return i;
        }
        i = i + 1;
    }
    i
}


/// One measurement: a benchmark, the variant under test, the input size, and the
/// throughput in millionths of a byte per nanosecond.
#[derive(Debug)]
pub struct BenchRecord {
    pub bench_name: String,
    pub variant: String,
    pub num_bytes: u32,
    pub throughput: u64,
}

impl BenchRecord {
    pub fn duplicate(&self) -> (r: Self)
        ensures
            r == *self,
    {
        BenchRecord {
            bench_name: self.bench_name.clone(),
            variant: self.variant.clone(),
            num_bytes: self.num_bytes,
            throughput: self.throughput,
        }
    }
}

#[derive(Debug, Clone, Copy, PartialEq, Eq)]
pub enum LoadError {
    /// The line with this index (from zero) lacks a field or holds an unreadable value.
    MalformedRecord { line: usize },
}

impl LoadError {
    /// The index of the offending line.
    pub open spec fn line(self) -> usize {
        match self {
            LoadError::MalformedRecord { line } => line,
        }
    }
}

/// The three leading components of `id`, split at `/`.
pub fn split_id(id: &str) -> (r: Option<(String, String, String)>)
    ensures
        match id_parts(id@) {
            Some((a, b, c)) => r.is_some() && r.unwrap().0@ == a && r.unwrap().1@ == b
                && r.unwrap().2@ == c,
            None => r.is_none(),
        },
{
    let n = id.unicode_len();
    let i = find_char_from(id, '/', 0);
    if i >= n {
        return None;
    }
    let j = find_char_from(id, '/', i + 1);
    if j >= n {
        return None;
    }
    let k = find_char_from(id, '/', j + 1);
    proof {
        lemma_find_char_bounds(id@, '/', i + 1);
        lemma_find_char_bounds(id@, '/', j + 1);
    }
    let a = String::from_str(id.substring_char(0, i));
    let b = String::from_str(id.substring_char(i + 1, j));
    let c = String::from_str(id.substring_char(j + 1, k));
    Some((a, b, c))
}

proof fn lemma_find_char_bounds(s: Seq<char>, c: char, from: int)
    requires
        0 <= from <= s.len(),
    ensures
        from <= find_char(s, c, from) <= s.len(),
    decreases s.len() - from,
{
    if from < s.len() && s[from] != c {
        lemma_find_char_bounds(s, c, from + 1);
    }
}

/// Reads a decimal written `digits` or `digits.digits`, as `(m, k)` with value `m / 10^k`.
pub fn parse_decimal(s: &str) -> (r: Option<(u64, u32)>)
    ensures
        match decimal_of(s@) {
            Some((m, k)) => r == Some((m as u64, k as u32)),
            None => r.is_none(),
        },
{
    let n = s.unicode_len();
    let p = find_char_from(s, '.', 0);
    proof {
        lemma_find_char_bounds(s@, '.', 0);
    }
    let whole = s.substring_char(0, p);
    let mut digits = String::from_str(whole);
    let mut k: usize = 0;
    if p < n {
        let frac = s.substring_char(p + 1, n);
        k = frac.unicode_len();
        if k == 0 {
            return None;
        }
        digits = digits.concat(frac);
    } else {
        assert(digits@ =~= whole@ + Seq::<char>::empty());
    }
    let ghost frac_v = if p < n { s@.subrange(p + 1, n as int) } else { Seq::<char>::empty() };
    assert(digits@ == whole@ + frac_v);
    if whole.unicode_len() == 0 || k > MAX_FRACTION_DIGITS as usize {
        return None;
    }
    match parse_number(digits.as_str(), u64::MAX) {
        None => {
            proof {
                if all_digits(whole@) && all_digits(frac_v) {
                    assert(all_digits(whole@ + frac_v));
                }
            }
            None
        },
        Some(m) => {
            assert(all_digits(whole@)) by {
                assert forall|i: int| 0 <= i < whole@.len() implies is_digit(#[trigger] whole@[i]) by {
                    assert(whole@[i] == (whole@ + frac_v)[i]);
                }
            }
            assert(all_digits(frac_v)) by {
                assert forall|i: int| 0 <= i < frac_v.len() implies is_digit(#[trigger] frac_v[i]) by {
                    assert(frac_v[i] == (whole@ + frac_v)[whole@.len() + i]);
                }
            }
            Some((m, k as u32))
        },
    }
}

fn parse_exponent(t: &str) -> (r: Option<i32>)
    ensures
        match exponent_of(t@) {
            Some(x) => r == Some(x as i32),
            None => r.is_none(),
        },
{
    let n = t.unicode_len();
    if n > 0 && (t.get_char(0) == '-' || t.get_char(0) == '+') {
        assert(t@.subrange(1, n as int) =~= t@.drop_first());
        let negative = t.get_char(0) == '-';
        match parse_number(t.substring_char(1, n), MAX_FRACTION_DIGITS as u64) {
            Some(v) => Some(if negative { -(v as i32) } else { v as i32 }),
            None => None,
        }
    } else {
        match parse_number(t, MAX_FRACTION_DIGITS as u64) {
            Some(v) => Some(v as i32),
            None => None,
        }
    }
}

/// Reads a duration as JSON numbers are written, as `(m, e)` with value `m * 10^e`.
pub fn parse_duration(s: &str) -> (r: Option<(u64, i32)>)
    ensures
        match duration_of(s@) {
            Some((m, e)) => r == Some((m as u64, e as i32)),
            None => r.is_none(),
        },
        r.is_some() ==> -800 <= r.unwrap().1 <= 400,
{
    let n = s.unicode_len();
    let q = find_char_from(s, 'e', 0);
    proof {
        lemma_find_char_bounds(s@, 'e', 0);
    }
    let (m, k) = match parse_decimal(s.substring_char(0, q)) {
        Some(d) => d,
        None => return None,
    };
    if q == n {
        return Some((m, -(k as i32)));
    }
    match parse_exponent(s.substring_char(q + 1, n)) {
        Some(x) => Some((m, x - k as i32)),
        None => None,
    }
}

/// Throughput in millionths of a byte per nanosecond for `bytes` processed in
/// `m * 10^e` nanoseconds, when it can be computed.
pub fn throughput_of(bytes: u32, m: u64, e: i32) -> (r: Option<u64>)
    requires
        -800 <= e <= 400,
    ensures
        r == (if throughput_fits(bytes as nat, m as nat, e as int) {
            Some(throughput_units(bytes as nat, m as nat, e as int) as u64)
        } else {
            None
        }),
{
    if m == 0 || 6 - e > MAX_SCALE {
        return None;
    }
    if e <= 6 {
        let k = (6 - e) as u32;
        let mut scale: u128 = 1;
        let mut i: u32 = 0;
        while i < k
            invariant
                k <= 26,
                i <= k,
                scale as nat == pow10(i as nat),
            decreases k - i,
        {
            proof {
                lemma_pow10_monotone((i + 1) as nat, 26);
                lemma_pow10_26();
            }
            scale = scale * 10;
            i = i + 1;
        }
        proof {
            lemma_pow10_monotone(k as nat, 26);
            lemma_pow10_26();
            assert(bytes as nat * scale as nat <= 4294967295nat * 100000000000000000000000000nat)
                by (nonlinear_arith)
                requires
                    bytes <= 4294967295nat,
                    scale <= 100000000000000000000000000nat;
        }
        let q = (bytes as u128 * scale) / (m as u128);
        if q > u64::MAX as u128 {
            None
        } else {
            Some(q as u64)
        }
    } else if e - 6 > 19 {
        proof {
            lemma_pow10_monotone(20, (e - 6) as nat);
            lemma_pow10_20();
            assert(m * pow10((e - 6) as nat) >= 100000000000000000000nat) by (nonlinear_arith)
                requires
                    m >= 1,
                    pow10((e - 6) as nat) >= 100000000000000000000nat;
            assert((bytes as nat) / ((m * pow10((e - 6) as nat)) as nat) == 0) by (nonlinear_arith)
                requires
                    bytes < 100000000000000000000nat,
                    m * pow10((e - 6) as nat) >= 100000000000000000000nat;
        }
        Some(0)
    } else {
        let k = (e - 6) as u32;
        let mut scale: u128 = 1;
        let mut i: u32 = 0;
        while i < k
            invariant
                k <= 19,
                i <= k,
                scale as nat == pow10(i as nat),
            decreases k - i,
        {
            proof {
                lemma_pow10_monotone((i + 1) as nat, 19);
                lemma_pow10_19();
            }
            scale = scale * 10;
            i = i + 1;
        }
        proof {
            lemma_pow10_monotone(k as nat, 19);
            lemma_pow10_19();
            lemma_pow10_positive(k as nat);
            assert(m as nat * scale as nat <= 18446744073709551615nat * 10000000000000000000nat)
                by (nonlinear_arith)
                requires
                    m <= 18446744073709551615nat,
                    scale <= 10000000000000000000nat;
            assert(m as nat * scale as nat >= 1) by (nonlinear_arith)
                requires
                    m >= 1,
                    scale >= 1;
        }
        let q = (bytes as u128) / (m as u128 * scale);
        assert(q <= bytes) by (nonlinear_arith)
            requires
                q == (bytes as int) / ((m * scale) as int),
                m * scale >= 1;
        Some(q as u64)
    }
}

proof fn lemma_pow10_19()
    ensures
        pow10(19) == 10000000000000000000nat,
{
    reveal_with_fuel(pow10, 20);
}

proof fn lemma_pow10_20()
    ensures
        pow10(20) == 100000000000000000000nat,
{
    reveal_with_fuel(pow10, 21);
}

proof fn lemma_pow10_26()
    ensures
        pow10(26) == 100000000000000000000000000nat,
{
    reveal_with_fuel(pow10, 27);
}


pub open spec fn opt_chars(o: Option<&str>) -> Option<Seq<char>> {
    match o {
        Some(t) => Some(t@),
        None => None,
    }
}

/// What one event with these fields yields: `None` when it is malformed, `Some(None)`
/// when it is skipped, else the record's name, variant, size and throughput.
pub open spec fn record_outcome(
    reason: Option<Seq<char>>,
    id: Option<Seq<char>>,
    estimate: Option<Seq<char>>,
    excluded: Seq<u32>,
) -> Option<Option<(Seq<char>, Seq<char>, nat, nat)>> {
    match reason {
        None => None,
        Some(r) => if r != complete_reason() {
            Some(None)
        } else {
            match (id, estimate) {
                (Some(i), Some(e)) => match (id_parts(i), duration_of(e)) {
                    (Some((a, b, c)), Some((m, k))) => match size_of(c) {
                        Some(n) => if throughput_fits(n, m, k) {
                            if excluded.contains(n as u32) {
                                Some(None)
                            } else {
                                Some(Some((a, b, n, throughput_units(n, m, k))))
                            }
                        } else {
                            None
                        },
                        None => None,
                    },
                    _ => None,
                },
                _ => None,
            }
        },
    }
}

/// Whether the two texts are equal.
pub fn same_text(a: &str, b: &str) -> (r: bool)
    ensures
        r == (a@ == b@),
{
    let lt = text_lt(a, b);
    let gt = text_lt(b, a);
    proof {
        lemma_lex_total(a@, b@);
        lemma_lex_irreflexive(a@);
    }
    !lt && !gt
}

fn contains_size(sizes: &Vec<u32>, n: u32) -> (r: bool)
    ensures
        r == sizes@.contains(n),
{
    let mut i: usize = 0;
    while i < sizes.len()
        invariant
            i <= sizes@.len(),
            forall|j: int| 0 <= j < i ==> sizes@[j] != n,
        decreases sizes.len() - i,
    {
        if sizes[i] == n {
            return true;
        }
        i = i + 1;
    }
    false
}

/// Turns the fields of one event into a record. An event whose reason is not
/// `benchmark-complete`, or whose size is listed in `excluded`, is skipped;
/// a missing field or an unreadable id, size or duration is an error for `line`.
pub fn record_from_fields(
    reason: Option<&str>,
    id: Option<&str>,
    estimate: Option<&str>,
    excluded: &Vec<u32>,
    line: usize,
) -> (r: Result<Option<BenchRecord>, LoadError>)
    ensures
        match record_outcome(opt_chars(reason), opt_chars(id), opt_chars(estimate), excluded@) {
            None => r == Err::<Option<BenchRecord>, LoadError>(LoadError::MalformedRecord { line }),
            Some(None) => r.is_ok() && r.unwrap().is_none(),
            Some(Some((a, b, n, t))) => r.is_ok() && r.unwrap().is_some()
                && r.unwrap().unwrap().bench_name@ == a && r.unwrap().unwrap().variant@ == b
                && r.unwrap().unwrap().num_bytes as nat == n && r.unwrap().unwrap().throughput as nat == t,
        },
{
    let err = Err(LoadError::MalformedRecord { line });
    let reason = match reason {
        None => return err,
        Some(t) => t,
    };
    if !same_text(reason, "benchmark-complete") {
        return Ok(None);
    }
    let (id, estimate) = match (id, estimate) {
        (Some(i), Some(e)) => (i, e),
        _ => return err,
    };
    let (name, variant, size) = match split_id(id) {
        None => return err,
        Some(parts) => parts,
    };
    let (m, k) = match parse_duration(estimate) {
        None => return err,
        Some(d) => d,
    };
    let n = match parse_size(size.as_str()) {
        None => return err,
        Some(v) => v as u32,
    };
    let t = match throughput_of(n, m, k) {
        None => return err,
        Some(t) => t,
    };
    if contains_size(excluded, n) {
        return Ok(None);
    }
    Ok(Some(BenchRecord { bench_name: name, variant, num_bytes: n, throughput: t }))
}

/// The grouping key of a benchmark name and input size: `name/size`.
pub open spec fn key_chars(name: Seq<char>, bytes: nat) -> Seq<char> {
    name + seq!['/'] + dec_chars(bytes)
}

pub open spec fn record_key(r: BenchRecord) -> Seq<char> {
    key_chars(r.bench_name@, r.num_bytes as nat)
}

/// The grouping key `name/size`.
pub fn group_key(name: &str, bytes: u32) -> (r: String)
    ensures
        r@ == key_chars(name@, bytes as nat),
{
    proof {
        reveal_strlit("/");
    }
    let digits = decimal_text(bytes as u128);
    String::from_str(name).concat("/").concat(digits.as_str())
}

} // verus!
