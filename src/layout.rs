use vstd::prelude::*;

use crate::grouping::RecordGroups;
use crate::model::{has_variant, lemma_color_determinism, variant_colors, Group};
use crate::shapes::{is_line, is_rect, is_text, line, rect, text, Anchor, Shape};
use crate::text::{dec_chars, decimal_text, lemma_pow10_monotone, lemma_pow10_positive, point_chars, point_text, pow10};

verus! {

/// Room kept left of the plot for the y axis.
pub const Y_AXIS_SPACE: i64 = 80;

/// Room kept below the plot for the x axis; also where the first group starts.
pub const X_AXIS_SPACE: i64 = 80;

/// Layout of one grouped bar chart, in canvas units.
#[derive(Debug, Clone, Copy)]
pub struct GroupBarOptions {
    pub total_width: u32,
    pub total_height: u32,
    /// chart padding from border
    pub chart_area_to_border_padding: u32,
    /// padding between groups
    pub group_padding: u32,
    /// padding between bars inside group
    pub bar_padding: u32,
    /// widest a bar may be
    pub max_bar_width: u32,
    pub print_delta: bool,
}

impl GroupBarOptions {
    pub open spec fn graph_width(self) -> int {
        self.total_width - Y_AXIS_SPACE - 2 * self.chart_area_to_border_padding
    }

    pub open spec fn graph_height(self) -> int {
        self.total_height - X_AXIS_SPACE - 2 * self.chart_area_to_border_padding
    }

    /// Width of the plot: the canvas less the y axis room and the padding on both sides.
    pub fn get_available_graph_width(&self) -> (r: i64)
        ensures
            r == self.graph_width(),
    {
        self.total_width as i64 - Y_AXIS_SPACE - 2 * self.chart_area_to_border_padding as i64
    }

    /// Height of the plot: the canvas less the x axis room and the padding on both sides.
    pub fn get_available_graph_height(&self) -> (r: i64)
        ensures
            r == self.graph_height(),
    {
        self.total_height as i64 - X_AXIS_SPACE - 2 * self.chart_area_to_border_padding as i64
    }
}

/// Height of a bar of value `num / den` on a plot of height `h` whose top stands for
/// the value `max`, rounded down: `h * (num / den) / max`.
pub open spec fn scaled_height(h: int, num: nat, den: nat) -> int
    recommends
        den > 0,
{
    (h * num) / (den as int)
}

/// The y coordinate of the top of a bar: bars grow upward from the baseline at
/// `graph_height + padding`.
pub open spec fn y_for(o: GroupBarOptions, num: nat, den: nat) -> int {
    o.graph_height() + o.chart_area_to_border_padding - scaled_height(o.graph_height(), num, den)
}

/// The y coordinate of the top of a bar of value `val` when the plot's top stands for `max_value`.
pub fn compute_y_for_value(options: &GroupBarOptions, val: u64, max_value: u64) -> (r: i64)
    requires
        max_value > 0,
        options.graph_height() > 0,
        val <= 16 * max_value,
    ensures
        r == y_for(*options, val as nat, max_value as nat),
        0 <= scaled_height(options.graph_height(), val as nat, max_value as nat) <= 16 * options.graph_height(),
        val <= max_value ==> scaled_height(options.graph_height(), val as nat, max_value as nat) <= options.graph_height(),
{
    scaled_y(options, val as u128, max_value as u128)
}

fn scaled_y(options: &GroupBarOptions, num: u128, den: u128) -> (r: i64)
    requires
        0 < den < 0x1_0000_0000_0000_0000_0000u128,
        options.graph_height() > 0,
        num <= 16 * den,
    ensures
        r == y_for(*options, num as nat, den as nat),
        0 <= scaled_height(options.graph_height(), num as nat, den as nat) <= 16 * options.graph_height(),
        num <= den ==> scaled_height(options.graph_height(), num as nat, den as nat) <= options.graph_height(),
{
    let h = options.get_available_graph_height();
    assert(h * num <= h * 16 * den) by (nonlinear_arith)
        requires
            h > 0,
            num <= 16 * den;
    assert((h * num) / (den as int) <= 16 * h) by (nonlinear_arith)
        requires
            h > 0,
            den > 0,
            h * num <= h * 16 * den;
    assert(h * num <= 4294967296 * (16 * 0x1_0000_0000_0000_0000_0000u128)) by (nonlinear_arith)
        requires
            0 < h <= 4294967296,
            num <= 16 * den,
            den < 0x1_0000_0000_0000_0000_0000u128;
    assert(num <= den ==> (h * num) / (den as int) <= h) by (nonlinear_arith)
        requires
            h > 0,
            den > 0;
    assert((h * num) / (den as int) >= 0) by (nonlinear_arith)
        requires
            h > 0,
            den > 0;
    let height = ((h as u128) * num / den) as i64;
    h + options.chart_area_to_border_padding as i64 - height
}

/// Whether `max / n >= 10^m`, for a whole number `m` of either sign.
pub open spec fn reaches_power(max: nat, n: nat, m: int) -> bool {
    if m >= 0 {
        max >= n * pow10(m as nat)
    } else {
        max * pow10((-m) as nat) >= n
    }
}

/// `floor(log10(max / n))`: the power of ten of the raw step `max / n`.
pub open spec fn is_magnitude(max: nat, n: nat, m: int) -> bool {
    reaches_power(max, n, m) && !reaches_power(max, n, m + 1)
}

/// `floor(max / (n * 10^m))`: the leading digit of the raw step.
pub open spec fn leading_digit(max: nat, n: nat, m: int) -> nat {
    if m >= 0 {
        max / (n * pow10(m as nat))
    } else {
        max * pow10((-m) as nat) / n
    }
}

/// The leading digit promoted to a "nice" one. `round(x + 0.5)` of the raw
/// leading figure `x >= 0` is `floor(x) + 1`.
pub open spec fn nice_digit(max: nat, n: nat, m: int) -> nat {
    let msd = leading_digit(max, n, m) + 1;
    if msd > 5 {
        10
    } else if msd > 2 {
        5
    } else if msd > 1 {
        2
    } else {
        1
    }
}

proof fn lemma_reaches_lower(max: nat, n: nat, a: int, b: int)
    requires
        reaches_power(max, n, a),
        b <= a,
    ensures
        reaches_power(max, n, b),
{
    if b >= 0 {
        lemma_pow10_monotone(b as nat, a as nat);
        assert(n * pow10(b as nat) <= n * pow10(a as nat)) by (nonlinear_arith)
            requires
                pow10(b as nat) <= pow10(a as nat);
    } else if a >= 0 {
        lemma_pow10_positive((-b) as nat);
        lemma_pow10_positive(a as nat);
        assert(max * pow10((-b) as nat) >= n) by (nonlinear_arith)
            requires
                max >= n * pow10(a as nat),
                pow10(a as nat) >= 1,
                pow10((-b) as nat) >= 1;
    } else {
        lemma_pow10_monotone((-a) as nat, (-b) as nat);
        assert(max * pow10((-b) as nat) >= max * pow10((-a) as nat)) by (nonlinear_arith)
            requires
                pow10((-a) as nat) <= pow10((-b) as nat);
    }
}

/// The power of ten of a raw step is unique, so the step size is a function of
/// `max` and `n`.
pub proof fn lemma_magnitude_unique(max: nat, n: nat, m1: int, m2: int)
    requires
        is_magnitude(max, n, m1),
        is_magnitude(max, n, m2),
    ensures
        m1 == m2,
{
    if m1 < m2 {
        lemma_reaches_lower(max, n, m2, m1 + 1);
    } else if m2 < m1 {
        lemma_reaches_lower(max, n, m1, m2 + 1);
    }
}

/// A step of `digit * 10^exponent`.
#[derive(Debug, Clone, Copy, PartialEq, Eq)]
pub struct StepSize {
    pub digit: u64,
    pub exponent: i32,
}

/// Most ticks an axis may ask for.
pub const MAX_TARGET_STEPS: u64 = 1000;

/// The axis step for values up to `max_value` in about `target_steps` steps:
/// one, two, five or ten times the power of ten of `max_value / target_steps`.
pub fn calc_step_size(max_value: u64, target_steps: u64) -> (r: StepSize)
    requires
        max_value > 0,
        1 <= target_steps <= MAX_TARGET_STEPS,
    ensures
        is_magnitude(max_value as nat, target_steps as nat, r.exponent as int),
        r.digit == nice_digit(max_value as nat, target_steps as nat, r.exponent as int),
        r.digit == 1 || r.digit == 2 || r.digit == 5 || r.digit == 10,
        -3 <= r.exponent <= 19,
{
    let max = max_value as u128;
    let n = target_steps as u128;
    if max >= n {
        let mut p: u128 = 1;
        let mut np: u128 = n;
        let mut m: i32 = 0;
        while np * 10 <= max
            invariant
                0 <= m <= 19,
                1 <= n <= 1000,
                max < 0x1_0000_0000_0000_0000,
                p as nat == pow10(m as nat),
                np == n * p,
                1 <= p <= np <= max,
            decreases max - np,
        {
            proof {
                if m >= 19 {
                    lemma_pow10_monotone(19, m as nat);
                    lemma_pow10_19();
                }
                assert(n * (p * 10) == np * 10) by (nonlinear_arith)
                    requires
                        np == n * p;
                assert(p * 10 <= np * 10) by (nonlinear_arith)
                    requires
                        p <= np;
            }
            p = p * 10;
            np = np * 10;
            m = m + 1;
        }
        proof {
            assert(pow10((m + 1) as nat) == 10 * pow10(m as nat));
            assert(n * pow10((m + 1) as nat) == np * 10) by (nonlinear_arith)
                requires
                    np == n * p,
                    pow10((m + 1) as nat) == 10 * p;
            assert((max as int) / (np as int) < 10) by (nonlinear_arith)
                requires
                    max < np * 10,
                    np >= 1;
        }
        let msd = max / np + 1;
        StepSize { digit: snap(msd as u64), exponent: m }
    } else {
        let mut p: u128 = 10;
        let mut mp: u128 = max * 10;
        let mut m: i32 = -1;
        proof {
            assert(pow10(1) == 10) by {
                reveal_with_fuel(pow10, 2);
            }
        }
        while mp < n
            invariant
                -3 <= m <= -1,
                1 <= n <= 1000,
                1 <= max < n,
                p as nat == pow10((-m) as nat),
                mp == max * p,
                p <= mp,
                m == -1 || max * pow10((-(m + 1)) as nat) < n,
                mp < n * 10,
            decreases 3 + m,
        {
            proof {
                if m <= -3 {
                    lemma_pow10_monotone(3, (-m) as nat);
                    assert(pow10(3) == 1000) by {
                        reveal_with_fuel(pow10, 4);
                    }
                }
                assert(max * (p * 10) == mp * 10) by (nonlinear_arith)
                    requires
                        mp == max * p;
                assert(p * 10 <= mp * 10) by (nonlinear_arith)
                    requires
                        p <= mp;
                assert(pow10((-(m - 1)) as nat) == 10 * pow10((-m) as nat));
            }
            p = p * 10;
            mp = mp * 10;
            m = m - 1;
        }
        proof {
            assert(pow10(0) == 1);
            assert(reaches_power(max as nat, n as nat, m as int));
            if m + 1 == 0 {
                assert(!reaches_power(max as nat, n as nat, (m + 1) as int));
            } else {
                assert(!reaches_power(max as nat, n as nat, (m + 1) as int));
            }
            assert(((mp) as int) / (n as int) < 10) by (nonlinear_arith)
                requires
                    mp < n * 10,
                    n >= 1;
        }
        let msd = mp / n + 1;
        StepSize { digit: snap(msd as u64), exponent: m }
    }
}

fn snap(msd: u64) -> (r: u64)
    ensures
        r == (if msd > 5 { 10 } else if msd > 2 { 5 } else if msd > 1 { 2 } else { 1u64 }),
{
    if msd > 5 {
        10
    } else if msd > 2 {
        5
    } else if msd > 1 {
        2
    } else {
        1
    }
}

proof fn lemma_pow10_19()
    ensures
        pow10(19) == 10000000000000000000nat,
{
    reveal_with_fuel(pow10, 20);
}


/// The delta between the smallest and the largest value of a group, in hundredths of
/// a percent of the smallest, rounded half up: `(max - min) / min * 100` to two decimals.
pub open spec fn percent_hundredths(min: nat, max: nat) -> nat
    recommends
        0 < min <= max,
{
    (((max - min) * 20000 + min) as int / (2 * min) as int) as nat
}

/// The delta label `+{percent}%`, the percent with two decimals; a smallest value of
/// zero gives `+inf%`, or `+NaN%` when the largest is zero too.
pub open spec fn percent_chars(min: nat, max: nat) -> Seq<char> {
    if min == 0 {
        if max == 0 {
            "+NaN%"@
        } else {
            "+inf%"@
        }
    } else {
        seq!['+'] + point_chars(percent_hundredths(min, max), 2) + seq!['%']
    }
}

/// The delta label of a group whose values run from `min` to `max`.
pub fn get_percent_difference(min: u64, max: u64) -> (r: String)
    requires
        min <= max,
    ensures
        r@ == percent_chars(min as nat, max as nat),
{
    if min == 0 {
        if max == 0 {
            return String::from_str("+NaN%");
        } else {
            return String::from_str("+inf%");
        }
    }
    let h = ((max - min) as u128 * 20000 + min as u128) / (2 * min as u128);
    proof {
        reveal_strlit("+");
        reveal_strlit("%");
    }
    let digits = point_text(h, 2);
    String::from_str("+").concat(digits.as_str()).concat("%")
}

/// Equal smallest and largest values give the label `+0.00%`.
pub proof fn lemma_equal_values_zero_delta(v: nat)
    requires
        v > 0,
    ensures
        percent_chars(v, v) == "+0.00%"@,
{
    reveal_strlit("+0.00%");
    assert(percent_hundredths(v, v) == 0) by (nonlinear_arith)
        requires
            v > 0;
    assert(pow10(2) == 100) by {
        reveal_with_fuel(pow10, 3);
    }
    reveal_with_fuel(crate::text::padded_digits, 3);
    assert(point_chars(0, 2) =~= seq!['0', '.', '0', '0']);
    assert(percent_chars(v, v) =~= "+0.00%"@);
}

/// A tick value: `multiple * 10^exponent` millionths of a byte per nanosecond.
#[derive(Debug, Clone, Copy, PartialEq, Eq)]
pub struct TickValue {
    pub multiple: u64,
    pub exponent: i32,
}

/// The ticks of an axis up to `max`: `i * step` for `i` in `0..num_ticks`.
pub fn bar_axis_ticks(max: u64, num_ticks: u64) -> (r: Vec<TickValue>)
    requires
        max > 0,
        1 <= num_ticks <= MAX_TARGET_STEPS,
    ensures
        r@.len() == num_ticks,
        forall|i: int| 0 <= i < r@.len() ==> (#[trigger] r@[i]).exponent == r@[0].exponent,
        is_magnitude(max as nat, num_ticks as nat, r@[0].exponent as int),
        -3 <= r@[0].exponent <= 19,
        forall|i: int| 0 <= i < r@.len() ==> (#[trigger] r@[i]).multiple == i * nice_digit(
            max as nat,
            num_ticks as nat,
            r@[0].exponent as int,
        ),
{
    let step = calc_step_size(max, num_ticks);
    let mut ticks: Vec<TickValue> = Vec::new();
    let mut i: u64 = 0;
    while i < num_ticks
        invariant
            i <= num_ticks <= MAX_TARGET_STEPS,
            step.digit <= 10,
            ticks@.len() == i,
            forall|x: int| 0 <= x < i ==> (#[trigger] ticks@[x]).exponent == step.exponent
                && ticks@[x].multiple == x * step.digit,
        decreases num_ticks - i,
    {
        assert(i * step.digit <= 1000 * 10) by (nonlinear_arith)
            requires
                i <= 1000,
                step.digit <= 10;
        ticks.push(TickValue { multiple: i * step.digit, exponent: step.exponent });
        i = i + 1;
    }
    ticks
}

/// The label of a tick in bytes per nanosecond: `multiple * 10^(exponent - 6)`,
/// with as many decimals as the exponent asks.
pub open spec fn tick_chars(multiple: nat, exponent: int) -> Seq<char> {
    if exponent >= 6 {
        dec_chars(multiple * pow10((exponent - 6) as nat))
    } else {
        point_chars(multiple, (6 - exponent) as nat)
    }
}

pub fn tick_label(t: TickValue) -> (r: String)
    requires
        -3 <= t.exponent <= 19,
    ensures
        r@ == tick_chars(t.multiple as nat, t.exponent as int),
{
    if t.exponent >= 6 {
        let mut p: u128 = 1;
        let mut i: i32 = 6;
        while i < t.exponent
            invariant
                6 <= i <= t.exponent <= 19,
                p as nat == pow10((i - 6) as nat),
            decreases t.exponent - i,
        {
            proof {
                lemma_pow10_monotone((i - 5) as nat, 13);
                lemma_pow10_13();
            }
            p = p * 10;
            i = i + 1;
        }
        proof {
            lemma_pow10_monotone((t.exponent - 6) as nat, 13);
            lemma_pow10_13();
            assert(t.multiple * p <= 0xffff_ffff_ffff_ffffu128 * 10000000000000u128) by (nonlinear_arith)
                requires
                    t.multiple <= 0xffff_ffff_ffff_ffffu128,
                    p <= 10000000000000u128;
        }
        decimal_text(t.multiple as u128 * p)
    } else {
        point_text(t.multiple as u128, (6 - t.exponent) as u32)
    }
}

proof fn lemma_pow10_13()
    ensures
        pow10(13) == 10000000000000nat,
{
    reveal_with_fuel(pow10, 14);
}

pub open spec fn min_nat(a: nat, b: nat) -> nat {
    if a <= b { a } else { b }
}

pub open spec fn max_nat(a: nat, b: nat) -> nat {
    if a >= b { a } else { b }
}

/// The smallest value of a non-empty list of bars.
pub open spec fn min_value(bars: Seq<(u64, String)>) -> nat
    decreases bars.len(),
{
    if bars.len() <= 1 {
        if bars.len() == 1 { bars[0].0 as nat } else { 0 }
    } else {
        min_nat(min_value(bars.drop_last()), bars.last().0 as nat)
    }
}

/// The largest value of a list of bars (zero when it is empty).
pub open spec fn max_value(bars: Seq<(u64, String)>) -> nat
    decreases bars.len(),
{
    if bars.len() == 0 {
        0
    } else {
        max_nat(max_value(bars.drop_last()), bars.last().0 as nat)
    }
}

proof fn lemma_max_bounds(bars: Seq<(u64, String)>)
    ensures
        forall|j: int| 0 <= j < bars.len() ==> (#[trigger] bars[j]).0 <= max_value(bars),
        bars.len() > 0 ==> exists|j: int| 0 <= j < bars.len() && (#[trigger] bars[j]).0 == max_value(bars),
        bars.len() > 0 ==> min_value(bars) <= max_value(bars),
    decreases bars.len(),
{
    if bars.len() > 0 {
        lemma_max_bounds(bars.drop_last());
        assert forall|j: int| 0 <= j < bars.len() implies (#[trigger] bars[j]).0 <= max_value(bars) by {
            if j < bars.len() - 1 {
                assert(bars[j] == bars.drop_last()[j]);
            }
        }
        if bars.len() > 1 {
            let j = choose|j: int| 0 <= j < bars.len() - 1 && (#[trigger] bars.drop_last()[j]).0 == max_value(bars.drop_last());
            assert(bars[j] == bars.drop_last()[j]);
        } else {
            assert(bars[0].0 == max_value(bars));
        }
    }
}

/// Smallest and largest value of the bars.
fn value_range(bars: &Vec<(u64, String)>) -> (r: (u64, u64))
    requires
        bars@.len() > 0,
    ensures
        r.0 == min_value(bars@),
        r.1 == max_value(bars@),
{
    let mut lo = bars[0].0;
    let mut hi = bars[0].0;
    let mut i: usize = 1;
    assert(bars@.subrange(0, 1).drop_last() =~= Seq::<(u64, String)>::empty());
    assert(bars@.subrange(0, 1).last() == bars@[0]);
    assert(max_value(bars@.subrange(0, 1).drop_last()) == 0);
    while i < bars.len()
        invariant
            1 <= i <= bars@.len(),
            lo == min_value(bars@.subrange(0, i as int)),
            hi == max_value(bars@.subrange(0, i as int)),
        decreases bars.len() - i,
    {
        assert(bars@.subrange(0, i + 1).drop_last() =~= bars@.subrange(0, i as int));
        let v = bars[i].0;
        if v < lo {
            lo = v;
        }
        if v > hi {
            hi = v;
        }
        i = i + 1;
    }
    assert(bars@.subrange(0, bars@.len() as int) =~= bars@);
    (lo, hi)
}

/// Offset of a group's label below the baseline.
pub const LABEL_OFFSET: i64 = 20;

/// Most bars one group may hold.
pub const MAX_BARS: usize = 0x10_0000;

/// Largest coordinate or length given to the drawing steps.
pub const MAX_COORD: i64 = 0x100_0000_0000;

/// The shapes of one group: its bars left to right from `group_start_x`, each
/// `bar_width` wide and `bar_padding` apart, growing up from the baseline to their
/// share of the plot height; the label below; and, when asked, the delta label
/// above the tallest bar, centered on the bars.
pub open spec fn group_shapes(
    o: GroupBarOptions,
    g: Group,
    start: int,
    bar_width: int,
    bar_padding: int,
    max: nat,
    r: Seq<Shape>,
) -> bool {
    let bars = g.values_and_color@;
    let k = bars.len() as int;
    &&& r.len() == k + 1 + (if o.print_delta { 1int } else { 0 })
    &&& forall|j: int| 0 <= j < k ==> is_rect(
        #[trigger] r[j],
        start + j * (bar_width + bar_padding),
        y_for(o, bars[j].0 as nat, max),
        bar_width,
        scaled_height(o.graph_height(), bars[j].0 as nat, max),
        bars[j].1@,
        None,
    )
    &&& is_text(r[k], start, o.graph_height() + o.chart_area_to_border_padding + LABEL_OFFSET, g.label@, Anchor::Start, false, None, None)
    &&& o.print_delta ==> is_text(
        r[k + 1],
        start + (k * bar_width + (k - 1) * bar_padding) / 2,
        y_for(o, max_value(bars), max) - 10,
        percent_chars(min_value(bars), max_value(bars)),
        Anchor::Middle,
        false,
        None,
        None,
    )
}

/// Draws one group of bars.
pub fn draw_group(
    options: &GroupBarOptions,
    group: &Group,
    group_start_x: i64,
    bar_width: i64,
    bar_padding: i64,
    max_value: u64,
) -> (r: Vec<Shape>)
    requires
        max_value > 0,
        0 < options.graph_height(),
        0 <= group_start_x <= MAX_COORD,
        0 <= bar_width <= MAX_COORD,
        0 <= bar_padding <= MAX_COORD,
        group.values_and_color@.len() <= MAX_BARS,
        options.print_delta ==> group.values_and_color@.len() > 0,
        forall|j: int| 0 <= j < group.values_and_color@.len() ==> (#[trigger] group.values_and_color@[j]).0 <= max_value,
    ensures
        group_shapes(*options, *group, group_start_x as int, bar_width as int, bar_padding as int, max_value as nat, r@),
{
    let bars = &group.values_and_color;
    let h = options.get_available_graph_height();
    let base = h + options.chart_area_to_border_padding as i64;
    let mut out: Vec<Shape> = Vec::new();
    let mut bar_x = group_start_x;
    let mut j: usize = 0;
    while j < bars.len()
        invariant
            *bars == group.values_and_color,
            max_value > 0,
            0 < options.graph_height(),
            h == options.graph_height(),
            base == h + options.chart_area_to_border_padding,
            0 <= group_start_x <= MAX_COORD,
            0 <= bar_width <= MAX_COORD,
            0 <= bar_padding <= MAX_COORD,
            bars@.len() <= MAX_BARS,
            forall|x: int| 0 <= x < bars@.len() ==> (#[trigger] bars@[x]).0 <= max_value,
            j <= bars@.len(),
            bar_x == group_start_x + j * (bar_width + bar_padding),
            out@.len() == j,
            forall|x: int| 0 <= x < j ==> is_rect(
                #[trigger] out@[x],
                group_start_x + x * (bar_width + bar_padding),
                y_for(*options, bars@[x].0 as nat, max_value as nat),
                bar_width as int,
                scaled_height(options.graph_height(), bars@[x].0 as nat, max_value as nat),
                bars@[x].1@,
                None,
            ),
        decreases bars.len() - j,
    {
        let v = bars[j].0;
        let y = compute_y_for_value(options, v, max_value);
        let height = base - y;
        assert(j * (bar_width + bar_padding) <= MAX_BARS * (2 * MAX_COORD)) by (nonlinear_arith)
            requires
                j <= MAX_BARS,
                0 <= bar_width + bar_padding <= 2 * MAX_COORD;
        out.push(rect(bar_x, y, bar_width, height, bars[j].1.as_str(), None));
        assert((j + 1) * (bar_width + bar_padding) == j * (bar_width + bar_padding) + (bar_width + bar_padding)) by (nonlinear_arith);
        assert((j + 1) * (bar_width + bar_padding) <= MAX_BARS * (2 * MAX_COORD)) by (nonlinear_arith)
            requires
                j + 1 <= MAX_BARS,
                0 <= bar_width + bar_padding <= 2 * MAX_COORD;
        bar_x = bar_x + bar_width + bar_padding;
        j = j + 1;
    }
    out.push(text(group_start_x, base + LABEL_OFFSET, group.label.clone(), Anchor::Start, false, None, &None));
    if options.print_delta {
        let (lo, hi) = value_range(bars);
        proof {
            lemma_max_bounds(bars@);
        }
        let y = compute_y_for_value(options, hi, max_value);
        let k = bars.len() as i64;
        assert(k * bar_width + (k - 1) * bar_padding <= MAX_BARS * (2 * MAX_COORD)) by (nonlinear_arith)
            requires
                1 <= k <= MAX_BARS,
                0 <= bar_width <= MAX_COORD,
                0 <= bar_padding <= MAX_COORD;
        assert(k * bar_width + (k - 1) * bar_padding >= 0) by (nonlinear_arith)
            requires
                1 <= k,
                0 <= bar_width,
                0 <= bar_padding;
        let span = k * bar_width + (k - 1) * bar_padding;
        out.push(text(group_start_x + span / 2, y - 10, get_percent_difference(lo, hi), Anchor::Middle, false, None, &None));
    }
    out
}


/// Number of ticks on the y axis.
pub const NUM_TICKS: u64 = 8;

/// The y coordinate of a tick of value `multiple * 10^exponent`.
pub open spec fn tick_y(o: GroupBarOptions, t: TickValue, max: nat) -> int {
    if t.exponent >= 0 {
        y_for(o, (t.multiple * pow10(t.exponent as nat)) as nat, max)
    } else {
        y_for(o, t.multiple as nat, max * pow10((-t.exponent) as nat))
    }
}

fn pow10_exec(k: u32) -> (r: u128)
    requires
        k <= 19,
    ensures
        r as nat == pow10(k as nat),
        r <= 10000000000000000000u128,
{
    let mut p: u128 = 1;
    let mut i: u32 = 0;
    while i < k
        invariant
            i <= k <= 19,
            p as nat == pow10(i as nat),
        decreases k - i,
    {
        proof {
            lemma_pow10_monotone((i + 1) as nat, 19);
            lemma_pow10_19();
        }
        p = p * 10;
        i = i + 1;
    }
    proof {
        lemma_pow10_monotone(k as nat, 19);
        lemma_pow10_19();
    }
    p
}

fn tick_y_exec(options: &GroupBarOptions, t: TickValue, max: u64, n: u64) -> (r: i64)
    requires
        max > 0,
        0 < options.graph_height(),
        1 <= n <= MAX_TARGET_STEPS,
        -3 <= t.exponent <= 19,
        reaches_power(max as nat, n as nat, t.exponent as int),
        t.multiple <= 10 * n,
    ensures
        r == tick_y(*options, t, max as nat),
{
    if t.exponent >= 0 {
        let p = pow10_exec(t.exponent as u32);
        proof {
            assert(t.multiple * p <= 10 * (n * p)) by (nonlinear_arith)
                requires
                    t.multiple <= 10 * n,
                    p >= 0;
        }
        scaled_y(options, t.multiple as u128 * p, max as u128)
    } else {
        let p = pow10_exec((-t.exponent) as u32);
        proof {
            lemma_pow10_monotone((-t.exponent) as nat, 3);
            assert(pow10(3) == 1000) by {
                reveal_with_fuel(pow10, 4);
            }
            assert(max * p <= 0xffff_ffff_ffff_ffffu128 * 1000) by (nonlinear_arith)
                requires
                    max <= 0xffff_ffff_ffff_ffffu128,
                    p <= 1000;
        }
        scaled_y(options, t.multiple as u128, max as u128 * p)
    }
}

/// The shapes of the y axis: per tick a mark, a grid line and a right-aligned
/// label; then the axis label half way down and the axis line itself, 5 units left of
/// the first group.
pub open spec fn y_scale_shapes(
    o: GroupBarOptions,
    axis_label: Seq<char>,
    start: int,
    max: nat,
    e: int,
    r: Seq<Shape>,
) -> bool {
    let axis_x = start - 5;
    let pad = o.chart_area_to_border_padding as int;
    &&& r.len() == 3 * NUM_TICKS + 2
    &&& forall|i: int| 0 <= i < NUM_TICKS ==> {
        let t = TickValue { multiple: (i * nice_digit(max, NUM_TICKS as nat, e)) as u64, exponent: e as i32 };
        let y = tick_y(o, t, max);
        &&& is_line(#[trigger] r[3 * i], axis_x, y, axis_x - 5, y, "#000000"@)
        &&& is_line(r[3 * i + 1], axis_x - 5, y, start + o.graph_width(), y, "#999999"@)
        &&& is_text(r[3 * i + 2], axis_x - 10, y + 4, tick_chars(t.multiple as nat, e), Anchor::RightToLeft, false, Some(12u32), None)
    }
    &&& is_text(r[3 * NUM_TICKS], 30, (pad + o.graph_height()) / 2, axis_label, Anchor::Middle, false, None, None)
    &&& is_line(r[3 * NUM_TICKS + 1], axis_x, pad, axis_x, pad + o.graph_height(), "#000000"@)
}

/// Draws the y axis for values up to `max_value`.
pub fn draw_y_scale(options: &GroupBarOptions, axis_label: &str, group_start_x: i64, max_value: u64) -> (r: Vec<Shape>)
    requires
        max_value > 0,
        0 < options.graph_height(),
        0 <= group_start_x <= MAX_COORD,
    ensures
        exists|e: int| is_magnitude(max_value as nat, NUM_TICKS as nat, e)
            && #[trigger] y_scale_shapes(*options, axis_label@, group_start_x as int, max_value as nat, e, r@),
{
    let axis_x = group_start_x - 5;
    let ticks = bar_axis_ticks(max_value, NUM_TICKS);
    let ghost e = ticks@[0].exponent as int;
    let mut out: Vec<Shape> = Vec::new();
    let mut i: usize = 0;
    let black = "#000000";
    let grey = "#999999";
    let grid_end = group_start_x + options.get_available_graph_width();
    while i < ticks.len()
        invariant
            ticks@.len() == NUM_TICKS,
            max_value > 0,
            0 < options.graph_height(),
            axis_x == group_start_x - 5,
            0 <= group_start_x <= MAX_COORD,
            black@ == "#000000"@,
            grey@ == "#999999"@,
            grid_end == group_start_x + options.graph_width(),
            e == ticks@[0].exponent,
            is_magnitude(max_value as nat, NUM_TICKS as nat, e),
            -3 <= e <= 19,
            forall|x: int| 0 <= x < ticks@.len() ==> (#[trigger] ticks@[x]).exponent == e,
            forall|x: int| 0 <= x < ticks@.len() ==> (#[trigger] ticks@[x]).multiple == x * nice_digit(max_value as nat, NUM_TICKS as nat, e),
            i <= NUM_TICKS,
            out@.len() == 3 * i,
            forall|x: int| 0 <= x < i ==> {
                let t = TickValue { multiple: (x * nice_digit(max_value as nat, NUM_TICKS as nat, e)) as u64, exponent: e as i32 };
                let y = tick_y(*options, t, max_value as nat);
                &&& is_line(#[trigger] out@[3 * x], axis_x as int, y, axis_x - 5, y, "#000000"@)
                &&& is_line(out@[3 * x + 1], axis_x - 5, y, group_start_x + options.graph_width(), y, "#999999"@)
                &&& is_text(out@[3 * x + 2], axis_x - 10, y + 4, tick_chars(t.multiple as nat, e), Anchor::RightToLeft, false, Some(12u32), None)
            },
        decreases ticks.len() - i,
    {
        let t = ticks[i];
        proof {
            assert(nice_digit(max_value as nat, NUM_TICKS as nat, e) <= 10);
            assert(t.multiple <= 10 * NUM_TICKS) by (nonlinear_arith)
                requires
                    t.multiple == i * nice_digit(max_value as nat, NUM_TICKS as nat, e),
                    i < NUM_TICKS,
                    nice_digit(max_value as nat, NUM_TICKS as nat, e) <= 10;
        }
        let y = tick_y_exec(options, t, max_value, NUM_TICKS);
        proof {
            assert(t == TickValue { multiple: (i * nice_digit(max_value as nat, NUM_TICKS as nat, e)) as u64, exponent: e as i32 });
        }
        out.push(line(axis_x, y, axis_x - 5, y, black));
        out.push(line(axis_x - 5, y, grid_end, y, grey));
        out.push(text(axis_x - 10, y + 4, tick_label(t), Anchor::RightToLeft, false, Some(12), &None));
        i = i + 1;
    }
    let pad = options.chart_area_to_border_padding as i64;
    let h = options.get_available_graph_height();
    let ghost before = out@;
    out.push(text(30, (pad + h) / 2, String::from_str(axis_label), Anchor::Middle, false, None, &None));
    out.push(line(axis_x, pad, axis_x, pad + h, black));
    assert forall|x: int| 0 <= x < NUM_TICKS implies #[trigger] out@[3 * x] == before[3 * x] && out@[3 * x + 1] == before[3 * x + 1]
        && out@[3 * x + 2] == before[3 * x + 2] by {}
    assert(y_scale_shapes(*options, axis_label@, group_start_x as int, max_value as nat, e, out@));
    out
}

/// The x axis: one line along the baseline from 5 units left of the first group
/// to the right end of the plot.
pub fn draw_x_scale(options: &GroupBarOptions, group_start_x: i64) -> (r: Vec<Shape>)
    requires
        0 <= group_start_x <= MAX_COORD,
    ensures
        r@.len() == 1,
        is_line(
            r@[0],
            group_start_x - 5,
            options.chart_area_to_border_padding + options.graph_height(),
            group_start_x + options.graph_width(),
            options.chart_area_to_border_padding + options.graph_height(),
            "#000000"@,
        ),
{
    let base = options.chart_area_to_border_padding as i64 + options.get_available_graph_height();
    let mut out: Vec<Shape> = Vec::new();
    out.push(line(group_start_x - 5, base, group_start_x + options.get_available_graph_width(), base, "#000000"));
    out
}


/// The longest name of the legend, in characters.
pub open spec fn longest_name(colors: Seq<(String, String)>) -> nat
    decreases colors.len(),
{
    if colors.len() == 0 {
        0
    } else {
        max_nat(longest_name(colors.drop_last()), colors.last().0@.len())
    }
}

/// Width of one character of a legend name.
pub const LEGEND_CHAR_WIDTH: i64 = 9;

/// Height of one legend row.
pub const LEGEND_ROW_HEIGHT: i64 = 20;

/// The legend, placed at `(graph_width - 100, 20)`: a white box with a border, as
/// wide as the longest name allows and one row per variant, each row the name and
/// a swatch of its color.
pub open spec fn legend_shapes(o: GroupBarOptions, colors: Seq<(String, String)>, r: Seq<Shape>) -> bool {
    let tx = o.graph_width() - 100;
    let ty = 20int;
    let lw = longest_name(colors) * LEGEND_CHAR_WIDTH;
    &&& r.len() == 1 + 2 * colors.len()
    &&& is_rect(r[0], tx, ty, lw, 20 + colors.len() * LEGEND_ROW_HEIGHT, "#FFFFFF"@, Some("#121212"@))
    &&& forall|e: int| 0 <= e < colors.len() ==> {
        &&& is_text(#[trigger] r[1 + 2 * e], tx + 10, ty + 25 + e * LEGEND_ROW_HEIGHT, colors[e].0@, Anchor::Start, false, Some(12u32), Some("#000000"@))
        &&& is_rect(r[2 + 2 * e], tx + lw - 30, ty + 15 + e * LEGEND_ROW_HEIGHT, 20, 10, colors[e].1@, None)
    }
}

/// Draws the legend of the variant colors.
pub fn draw_legend(options: &GroupBarOptions, variant_to_color: &Vec<(String, String)>) -> (r: Vec<Shape>)
    requires
        0 < variant_to_color@.len() <= MAX_BARS,
        forall|e: int| 0 <= e < variant_to_color@.len() ==> (#[trigger] variant_to_color@[e]).0@.len() <= MAX_COORD,
    ensures
        legend_shapes(*options, variant_to_color@, r@),
{
    let colors = variant_to_color;
    let mut longest: usize = 0;
    let mut i: usize = 0;
    assert(colors@.subrange(0, 0) =~= Seq::<(String, String)>::empty());
    while i < colors.len()
        invariant
            i <= colors@.len(),
            longest == longest_name(colors@.subrange(0, i as int)),
            longest <= MAX_COORD,
            forall|e: int| 0 <= e < colors@.len() ==> (#[trigger] colors@[e]).0@.len() <= MAX_COORD,
        decreases colors.len() - i,
    {
        assert(colors@.subrange(0, i + 1).drop_last() =~= colors@.subrange(0, i as int));
        let n = colors[i].0.as_str().unicode_len();
        if n > longest {
            longest = n;
        }
        i = i + 1;
    }
    assert(colors@.subrange(0, colors@.len() as int) =~= colors@);
    let tx = options.get_available_graph_width() - 100;
    let ty: i64 = 20;
    let lw = longest as i64 * LEGEND_CHAR_WIDTH;
    let mut out: Vec<Shape> = Vec::new();
    out.push(rect(tx, ty, lw, 20 + colors.len() as i64 * LEGEND_ROW_HEIGHT, "#FFFFFF", Some("#121212")));
    let black = Some(String::from_str("#000000"));
    let mut e: usize = 0;
    while e < colors.len()
        invariant
            colors@.len() <= MAX_BARS,
            tx == options.graph_width() - 100,
            ty == 20,
            lw == longest_name(colors@) * LEGEND_CHAR_WIDTH,
            0 <= lw <= MAX_COORD * LEGEND_CHAR_WIDTH,
            crate::shapes::opt_chars(black) == Some("#000000"@),
            e <= colors@.len(),
            out@.len() == 1 + 2 * e,
            is_rect(out@[0], tx as int, ty as int, lw as int, 20 + colors@.len() * LEGEND_ROW_HEIGHT, "#FFFFFF"@, Some("#121212"@)),
            forall|x: int| 0 <= x < e ==> {
                &&& is_text(#[trigger] out@[1 + 2 * x], tx + 10, ty + 25 + x * LEGEND_ROW_HEIGHT, colors@[x].0@, Anchor::Start, false, Some(12u32), Some("#000000"@))
                &&& is_rect(out@[2 + 2 * x], tx + lw - 30, ty + 15 + x * LEGEND_ROW_HEIGHT, 20, 10, colors@[x].1@, None)
            },
        decreases colors.len() - e,
    {
        let row_y = ty + 15 + e as i64 * LEGEND_ROW_HEIGHT;
        let ghost before = out@;
        out.push(text(tx + 10, row_y + 10, colors[e].0.clone(), Anchor::Start, false, Some(12), &black));
        out.push(rect(tx + lw - 30, row_y, 20, 10, colors[e].1.as_str(), None));
        assert forall|x: int| 0 <= x < e implies #[trigger] out@[1 + 2 * x] == before[1 + 2 * x] && out@[2 + 2 * x] == before[2 + 2 * x] by {}
        e = e + 1;
    }
    assert(out@.len() == 1 + 2 * colors@.len());
    assert(is_rect(out@[0], tx as int, ty as int, lw as int, 20 + colors@.len() * LEGEND_ROW_HEIGHT, "#FFFFFF"@, Some("#121212"@)));
    assert(forall|x: int| 0 <= x < colors@.len() ==> {
        &&& is_text(#[trigger] out@[1 + 2 * x], tx + 10, ty + 25 + x * LEGEND_ROW_HEIGHT, colors@[x].0@, Anchor::Start, false, Some(12u32), Some("#000000"@))
        &&& is_rect(out@[2 + 2 * x], tx + lw - 30, ty + 15 + x * LEGEND_ROW_HEIGHT, 20, 10, colors@[x].1@, None)
    });
    assert(tx as int == options.graph_width() - 100);
    assert(lw as int == longest_name(variant_to_color@) * LEGEND_CHAR_WIDTH);
    assert(legend_shapes(*options, variant_to_color@, out@));
    out
}

proof fn lemma_longest_name_same(c1: Seq<(String, String)>, c2: Seq<(String, String)>)
    requires
        c1.len() == c2.len(),
        forall|i: int| 0 <= i < c1.len() ==> (#[trigger] c1[i]).0@ == c2[i].0@,
    ensures
        longest_name(c1) == longest_name(c2),
    decreases c1.len(),
{
    if c1.len() > 0 {
        assert forall|i: int| 0 <= i < c1.drop_last().len() implies (#[trigger] c1.drop_last()[i]).0@ == c2.drop_last()[i].0@ by {
            assert(c1.drop_last()[i] == c1[i] && c2.drop_last()[i] == c2[i]);
        }
        lemma_longest_name_same(c1.drop_last(), c2.drop_last());
    }
}

/// The legend depends on the set of variant names alone: for two record collections
/// with the same variants, the legend drawn from the colors of one is exactly the
/// legend of the other.
pub proof fn lemma_legend_depends_on_variant_set(
    o: GroupBarOptions,
    g1: RecordGroups,
    g2: RecordGroups,
    c1: Seq<(String, String)>,
    c2: Seq<(String, String)>,
    legend: Seq<Shape>,
)
    requires
        forall|v: Seq<char>| has_variant(g1, v) <==> has_variant(g2, v),
        variant_colors(g1, c1),
        variant_colors(g2, c2),
        legend_shapes(o, c1, legend),
    ensures
        legend_shapes(o, c2, legend),
{
    lemma_color_determinism(g1, g2, c1, c2);
    lemma_longest_name_same(c1, c2);
    assert forall|e: int| 0 <= e < c2.len() implies {
        &&& is_text(#[trigger] legend[1 + 2 * e], o.graph_width() - 100 + 10, 20 + 25 + e * LEGEND_ROW_HEIGHT, c2[e].0@, Anchor::Start, false, Some(12u32), Some("#000000"@))
        &&& is_rect(legend[2 + 2 * e], o.graph_width() - 100 + longest_name(c2) * LEGEND_CHAR_WIDTH - 30, 20 + 15 + e * LEGEND_ROW_HEIGHT, 20, 10, c2[e].1@, None)
    } by {
        assert(c1[e].0@ == c2[e].0@ && c1[e].1@ == c2[e].1@);
    }
}

#[derive(Debug, Clone, Copy, PartialEq, Eq)]
pub enum RenderError {
    /// There are no groups.
    EmptyInput,
    /// The canvas leaves no room for the plot.
    DegenerateLayout,
    /// No bar has a value above zero.
    NoData,
}

/// The largest value over all groups.
pub open spec fn chart_max(gs: Seq<Group>) -> nat
    decreases gs.len(),
{
    if gs.len() == 0 {
        0
    } else {
        max_nat(chart_max(gs.drop_last()), max_value(gs.last().values_and_color@))
    }
}

/// The most bars in any one group.
pub open spec fn most_bars(gs: Seq<Group>) -> nat
    decreases gs.len(),
{
    if gs.len() == 0 {
        0
    } else {
        max_nat(most_bars(gs.drop_last()), gs.last().values_and_color@.len())
    }
}

/// Width of the room of each group: the plot width shared evenly.
pub open spec fn group_width(o: GroupBarOptions, gs: Seq<Group>) -> int {
    o.graph_width() / (gs.len() as int)
}

/// Width of each bar: the room of a group shared among the most bars of a group,
/// at most `max_bar_width`.
pub open spec fn bar_width(o: GroupBarOptions, gs: Seq<Group>) -> int {
    let w = group_width(o, gs) / (most_bars(gs) as int);
    if w <= o.max_bar_width { w } else { o.max_bar_width as int }
}

/// Where the first group starts.
pub open spec fn first_group_x(o: GroupBarOptions) -> int {
    X_AXIS_SPACE + o.chart_area_to_border_padding
}

proof fn lemma_chart_max_bounds(gs: Seq<Group>)
    ensures
        forall|g: int, j: int| 0 <= g < gs.len() && 0 <= j < gs[g].values_and_color@.len()
            ==> (#[trigger] gs[g].values_and_color@[j]).0 <= chart_max(gs),
        forall|g: int| 0 <= g < gs.len() ==> (#[trigger] gs[g].values_and_color@.len()) <= most_bars(gs),
    decreases gs.len(),
{
    if gs.len() > 0 {
        lemma_chart_max_bounds(gs.drop_last());
        assert forall|g: int, j: int| 0 <= g < gs.len() && 0 <= j < gs[g].values_and_color@.len()
            implies (#[trigger] gs[g].values_and_color@[j]).0 <= chart_max(gs) by {
            lemma_max_bounds(gs[g].values_and_color@);
            if g < gs.len() - 1 {
                assert(gs[g] == gs.drop_last()[g]);
            }
        }
        assert forall|g: int| 0 <= g < gs.len() implies (#[trigger] gs[g].values_and_color@.len()) <= most_bars(gs) by {
            if g < gs.len() - 1 {
                assert(gs[g] == gs.drop_last()[g]);
            }
        }
    }
}

/// A rendered chart: the y and x axes, the shapes of each group in order, the legend
/// and the title.
#[derive(Debug)]
pub struct Chart {
    pub y_axis: Vec<Shape>,
    pub x_axis: Vec<Shape>,
    pub groups: Vec<Vec<Shape>>,
    pub legend: Vec<Shape>,
    pub title: Shape,
}

/// The shapes of the groups, one group after another.
pub open spec fn flat_groups(gs: Seq<Vec<Shape>>) -> Seq<Shape>
    decreases gs.len(),
{
    if gs.len() == 0 {
        Seq::empty()
    } else {
        flat_groups(gs.drop_last()) + gs.last()@
    }
}

impl Chart {
    /// All shapes in drawing order: y axis, x axis, the groups, the legend, the title.
    pub fn into_shapes(self) -> (r: Vec<Shape>)
        ensures
            r@ == self.y_axis@ + self.x_axis@ + flat_groups(self.groups@) + self.legend@ + seq![self.title],
    {
        let Chart { y_axis, x_axis, groups, legend, title } = self;
        let mut out = y_axis;
        let mut xs = x_axis;
        out.append(&mut xs);
        let ghost head = out@;
        let mut gs = groups;
        let ghost all = gs@;
        let ghost done = Seq::<Vec<Shape>>::empty();
        assert(all =~= done + gs@);
        while gs.len() > 0
            invariant
                all == done + gs@,
                out@ == head + flat_groups(done),
            decreases gs.len(),
        {
            let ghost before = gs@;
            let mut g = gs.remove(0);
            let ghost g0 = g;
            proof {
                assert(done.push(g0).drop_last() =~= done);
            }
            out.append(&mut g);
            proof {
                assert(before[0] == g0);
                done = done.push(g0);
                assert(all =~= done + gs@) by {
                    assert(before =~= seq![g0] + gs@);
                }
            }
        }
        assert(done =~= all);
        let mut lg = legend;
        out.append(&mut lg);
        out.push(title);
        out
    }
}

/// Offset of the title's anchor left of the plot's right end.
pub const TITLE_OFFSET: i64 = 70;

/// Lays out the whole chart. Fails on no groups, then on a canvas with no room
/// for the plot, then when no bar has a value above zero.
pub fn render_grouped_bar_chart(
    title: &str,
    options: &GroupBarOptions,
    groups: &Vec<Group>,
    variant_to_color: &Vec<(String, String)>,
) -> (r: Result<Chart, RenderError>)
    requires
        groups@.len() <= MAX_BARS,
        forall|g: int| 0 <= g < groups@.len() ==> (#[trigger] groups@[g]).values_and_color@.len() <= MAX_BARS,
        options.print_delta ==> forall|g: int| 0 <= g < groups@.len() ==> (#[trigger] groups@[g]).values_and_color@.len() > 0,
        0 < variant_to_color@.len() <= MAX_BARS,
        forall|e: int| 0 <= e < variant_to_color@.len() ==> (#[trigger] variant_to_color@[e]).0@.len() <= MAX_COORD,
    ensures
        groups@.len() == 0 ==> r == Err::<Chart, RenderError>(RenderError::EmptyInput),
        groups@.len() > 0 && (options.graph_width() <= 0 || options.graph_height() <= 0)
            ==> r == Err::<Chart, RenderError>(RenderError::DegenerateLayout),
        groups@.len() > 0 && options.graph_width() > 0 && options.graph_height() > 0 && chart_max(groups@) == 0
            ==> r == Err::<Chart, RenderError>(RenderError::NoData),
        groups@.len() > 0 && options.graph_width() > 0 && options.graph_height() > 0 && chart_max(groups@) > 0
            ==> r.is_ok(),
        r.is_ok() ==> {
            let c = r.unwrap();
            let start = first_group_x(*options);
            let max = chart_max(groups@);
            &&& exists|e: int| is_magnitude(max, NUM_TICKS as nat, e)
                && #[trigger] y_scale_shapes(*options, "Gb/s"@, start, max, e, c.y_axis@)
            &&& c.x_axis@.len() == 1
            &&& is_line(c.x_axis@[0], start - 5, options.chart_area_to_border_padding + options.graph_height(),
                start + options.graph_width(), options.chart_area_to_border_padding + options.graph_height(), "#000000"@)
            &&& c.groups@.len() == groups@.len()
            &&& forall|g: int| 0 <= g < groups@.len() ==> group_shapes(
                *options,
                #[trigger] groups@[g],
                start + g * group_width(*options, groups@),
                bar_width(*options, groups@),
                options.bar_padding as int,
                max,
                c.groups@[g]@,
            )
            &&& legend_shapes(*options, variant_to_color@, c.legend@)
            &&& is_text(c.title, options.chart_area_to_border_padding + options.graph_width() - TITLE_OFFSET, 0, title@, Anchor::Middle, true, None, None)
        },
{
    if groups.len() == 0 {
        return Err(RenderError::EmptyInput);
    }
    let w = options.get_available_graph_width();
    let h = options.get_available_graph_height();
    if w <= 0 || h <= 0 {
        return Err(RenderError::DegenerateLayout);
    }
    let mut max: u64 = 0;
    let mut bars: usize = 0;
    let mut i: usize = 0;
    assert(groups@.subrange(0, 0) =~= Seq::<Group>::empty());
    while i < groups.len()
        invariant
            i <= groups@.len(),
            max == chart_max(groups@.subrange(0, i as int)),
            bars == most_bars(groups@.subrange(0, i as int)),
            bars <= MAX_BARS,
            forall|g: int| 0 <= g < groups@.len() ==> (#[trigger] groups@[g]).values_and_color@.len() <= MAX_BARS,
        decreases groups.len() - i,
    {
        assert(groups@.subrange(0, i + 1).drop_last() =~= groups@.subrange(0, i as int));
        let vs = &groups[i].values_and_color;
        if vs.len() > 0 {
            let (_, hi) = value_range(vs);
            if hi > max {
                max = hi;
            }
        }
        if vs.len() > bars {
            bars = vs.len();
        }
        i = i + 1;
    }
    assert(groups@.subrange(0, groups@.len() as int) =~= groups@);
    if max == 0 {
        return Err(RenderError::NoData);
    }
    proof {
        lemma_chart_max_bounds(groups@);
        lemma_max_bounds_nonzero(groups@);
    }
    let n = groups.len() as i64;
    let gw = w / n;
    let per_bar = gw / bars as i64;
    let bw = if per_bar <= options.max_bar_width as i64 { per_bar } else { options.max_bar_width as i64 };
    assert(0 <= gw <= w) by (nonlinear_arith)
        requires
            gw == w / n,
            w > 0,
            n > 0;
    assert(0 <= per_bar <= gw) by (nonlinear_arith)
        requires
            per_bar == (gw as int) / (bars as int),
            gw >= 0,
            bars > 0;
    assert(w <= MAX_COORD);
    let start = X_AXIS_SPACE + options.chart_area_to_border_padding as i64;
    let axis_label = "Gb/s";
    let y_axis = draw_y_scale(options, axis_label, start, max);
    let ghost e = choose|e: int| is_magnitude(max as nat, NUM_TICKS as nat, e)
        && #[trigger] y_scale_shapes(*options, axis_label@, start as int, max as nat, e, y_axis@);
    let x_axis = draw_x_scale(options, start);
    let mut drawn: Vec<Vec<Shape>> = Vec::new();
    let mut curr = start;
    let mut g: usize = 0;
    while g < groups.len()
        invariant
            0 < h == options.graph_height(),
            0 < w == options.graph_width(),
            n == groups@.len(),
            gw == group_width(*options, groups@),
            bw == bar_width(*options, groups@),
            0 <= bw <= MAX_COORD,
            0 <= gw <= w,
            start == first_group_x(*options),
            max == chart_max(groups@),
            max > 0,
            forall|x: int| 0 <= x < groups@.len() ==> (#[trigger] groups@[x]).values_and_color@.len() <= MAX_BARS,
            options.print_delta ==> forall|x: int| 0 <= x < groups@.len() ==> (#[trigger] groups@[x]).values_and_color@.len() > 0,
            forall|x: int, j: int| 0 <= x < groups@.len() && 0 <= j < groups@[x].values_and_color@.len()
                ==> (#[trigger] groups@[x].values_and_color@[j]).0 <= chart_max(groups@),
            g <= groups@.len(),
            curr == start + g * gw,
            drawn@.len() == g,
            forall|x: int| 0 <= x < g ==> group_shapes(
                *options,
                #[trigger] groups@[x],
                start + x * gw,
                bw as int,
                options.bar_padding as int,
                max as nat,
                drawn@[x]@,
            ),
        decreases groups.len() - g,
    {
        assert(g * gw <= w) by (nonlinear_arith)
            requires
                g < n,
                gw == w / n,
                w > 0,
                n > 0;
        let shapes = draw_group(options, &groups[g], curr, bw, options.bar_padding as i64, max);
        drawn.push(shapes);
        assert((g + 1) * gw == g * gw + gw) by (nonlinear_arith);
        curr = curr + gw;
        g = g + 1;
    }
    let legend = draw_legend(options, variant_to_color);
    let title_shape = text(options.chart_area_to_border_padding as i64 + w - TITLE_OFFSET, 0, String::from_str(title), Anchor::Middle, true, None, &None);
    proof {
        reveal_strlit("Gb/s");
    }
    let chart = Chart { y_axis, x_axis, groups: drawn, legend, title: title_shape };
    assert(axis_label@ == "Gb/s"@);
    assert(y_scale_shapes(*options, "Gb/s"@, start as int, max as nat, e, chart.y_axis@));
    assert(exists|e: int| is_magnitude(max as nat, NUM_TICKS as nat, e)
        && #[trigger] y_scale_shapes(*options, "Gb/s"@, start as int, max as nat, e, chart.y_axis@));
    assert(forall|g: int| 0 <= g < groups@.len() ==> group_shapes(
        *options,
        #[trigger] groups@[g],
        start + g * group_width(*options, groups@),
        bar_width(*options, groups@),
        options.bar_padding as int,
        max as nat,
        chart.groups@[g]@,
    ));
    assert(legend_shapes(*options, variant_to_color@, chart.legend@));
    Ok(chart)
}

/// Every bar of a rendered chart stands inside the plot: the value of bar `j` of
/// group `k` is at most the chart's largest value, so its height lies between zero
/// and the plot height and its top between the padding and the baseline; a bar of
/// the largest value reaches the top of the plot.
pub proof fn lemma_chart_bar_within_plot(o: GroupBarOptions, gs: Seq<Group>, k: int, j: int)
    requires
        o.graph_height() > 0,
        chart_max(gs) > 0,
        0 <= k < gs.len(),
        0 <= j < gs[k].values_and_color@.len(),
    ensures
        ({
            let v = gs[k].values_and_color@[j].0 as nat;
            let h = scaled_height(o.graph_height(), v, chart_max(gs));
            let y = y_for(o, v, chart_max(gs));
            &&& 0 <= h <= o.graph_height()
            &&& o.chart_area_to_border_padding <= y <= o.chart_area_to_border_padding + o.graph_height()
            &&& y + h == o.chart_area_to_border_padding + o.graph_height()
            &&& v == chart_max(gs) ==> h == o.graph_height() && y == o.chart_area_to_border_padding
        }),
{
    lemma_chart_max_bounds(gs);
    assert(gs[k].values_and_color@[j].0 <= chart_max(gs));
    lemma_bar_within_plot(o, gs[k].values_and_color@[j].0 as nat, chart_max(gs));
}

proof fn lemma_max_bounds_nonzero(gs: Seq<Group>)
    ensures
        chart_max(gs) > 0 ==> most_bars(gs) > 0,
    decreases gs.len(),
{
    if gs.len() > 0 {
        lemma_max_bounds_nonzero(gs.drop_last());
        if gs.last().values_and_color@.len() == 0 {
            assert(max_value(gs.last().values_and_color@) == 0);
        }
    }
}

/// Every bar of a chart stands inside the plot: for a value between zero and the
/// largest value, its height is between zero and the plot height, and its top
/// between the padding and the baseline.
pub proof fn lemma_bar_within_plot(o: GroupBarOptions, v: nat, max: nat)
    requires
        o.graph_height() > 0,
        0 < max,
        v <= max,
    ensures
        0 <= scaled_height(o.graph_height(), v, max) <= o.graph_height(),
        o.chart_area_to_border_padding <= y_for(o, v, max) <= o.chart_area_to_border_padding + o.graph_height(),
        y_for(o, v, max) + scaled_height(o.graph_height(), v, max) == o.chart_area_to_border_padding + o.graph_height(),
        v == max ==> scaled_height(o.graph_height(), v, max) == o.graph_height() && y_for(o, v, max) == o.chart_area_to_border_padding,
{
    assert(v == max ==> (o.graph_height() * v) / (max as int) == o.graph_height()) by (nonlinear_arith)
        requires
            max > 0;
    let h = o.graph_height();
    assert(0 <= (h * v) / (max as int) <= h) by (nonlinear_arith)
        requires
            h > 0,
            max > 0,
            v <= max;
}

} // verus!
