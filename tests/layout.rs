use bench_chart::layout::{
    bar_axis_ticks, calc_step_size, compute_y_for_value, draw_group, draw_legend, draw_x_scale, draw_y_scale,
    get_percent_difference, render_grouped_bar_chart, tick_label, GroupBarOptions, RenderError, StepSize, TickValue,
};
use bench_chart::model::Group;
use bench_chart::shapes::{Anchor, Shape};

fn options(print_delta: bool) -> GroupBarOptions {
    GroupBarOptions {
        total_width: 800,
        total_height: 600,
        chart_area_to_border_padding: 10,
        group_padding: 20,
        bar_padding: 3,
        max_bar_width: 20,
        print_delta,
    }
}

fn group(label: &str, bars: &[(u64, &str)]) -> Group {
    Group { label: label.to_string(), values_and_color: bars.iter().map(|(v, c)| (*v, c.to_string())).collect() }
}

fn rect_of(s: &Shape) -> (i64, i64, i64, i64, String) {
    match s {
        Shape::Rect { x, y, width, height, fill, .. } => (*x, *y, *width, *height, fill.clone()),
        _ => panic!("not a rectangle"),
    }
}

fn text_of(s: &Shape) -> (i64, i64, String, Anchor) {
    match s {
        Shape::Text { x, y, content, anchor, .. } => (*x, *y, content.clone(), *anchor),
        _ => panic!("not a text"),
    }
}

#[test]
fn available_space_subtracts_axes_and_padding() {
    let o = options(false);
    assert_eq!(o.get_available_graph_width(), 700);
    assert_eq!(o.get_available_graph_height(), 500);
    let small = GroupBarOptions { total_width: 50, ..o };
    assert_eq!(small.get_available_graph_width(), -50);
}

#[test]
fn y_grows_up_from_the_baseline() {
    let o = options(false);
    assert_eq!(compute_y_for_value(&o, 0, 100), 510);
    assert_eq!(compute_y_for_value(&o, 100, 100), 10);
    assert_eq!(compute_y_for_value(&o, 50, 100), 260);
    assert_eq!(compute_y_for_value(&o, 1, 3), 344);
}

#[test]
fn step_size_examples() {
    assert_eq!(calc_step_size(1_024_000, 8), StepSize { digit: 2, exponent: 5 });
    assert_eq!(calc_step_size(100, 8), StepSize { digit: 2, exponent: 1 });
    assert_eq!(calc_step_size(45, 8), StepSize { digit: 10, exponent: 0 });
    assert_eq!(calc_step_size(3, 8), StepSize { digit: 5, exponent: -1 });
    assert_eq!(calc_step_size(8, 8), StepSize { digit: 2, exponent: 0 });
    assert_eq!(calc_step_size(1, 8), StepSize { digit: 2, exponent: -1 });
    assert_eq!(calc_step_size(30, 8), StepSize { digit: 5, exponent: 0 });
}

#[test]
fn step_size_is_one_two_five_or_ten() {
    let mut v: u64 = 1;
    while v < u64::MAX / 3 {
        for n in [1u64, 4, 8, 10, 1000] {
            let s = calc_step_size(v, n);
            assert!([1, 2, 5, 10].contains(&s.digit));
            // the step covers the range in n steps, and no power of ten less does
            let step = (s.digit as f64) * 10f64.powi(s.exponent);
            assert!(step * (n as f64) >= (v as f64) * 0.999_999);
        }
        v = v * 3 + 1;
    }
}

#[test]
fn ticks_are_multiples_of_the_step() {
    let t = bar_axis_ticks(1_024_000, 8);
    assert_eq!(t.len(), 8);
    for (i, tick) in t.iter().enumerate() {
        assert_eq!(*tick, TickValue { multiple: 2 * i as u64, exponent: 5 });
    }
}

#[test]
fn tick_labels_are_in_bytes_per_nanosecond() {
    assert_eq!(tick_label(TickValue { multiple: 4, exponent: 5 }), "0.4");
    assert_eq!(tick_label(TickValue { multiple: 0, exponent: 5 }), "0.0");
    assert_eq!(tick_label(TickValue { multiple: 14, exponent: 6 }), "14");
    assert_eq!(tick_label(TickValue { multiple: 3, exponent: 8 }), "300");
    assert_eq!(tick_label(TickValue { multiple: 5, exponent: -1 }), "0.0000005");
}

#[test]
fn delta_label_formula() {
    assert_eq!(get_percent_difference(512_000, 1_024_000), "+100.00%");
    assert_eq!(get_percent_difference(3, 4), "+33.33%");
    assert_eq!(get_percent_difference(3, 5), "+66.67%");
    assert_eq!(get_percent_difference(1000, 1234), "+23.40%");
}

#[test]
fn delta_label_of_equal_values_is_zero() {
    assert_eq!(get_percent_difference(7, 7), "+0.00%");
    assert_eq!(get_percent_difference(0, 5), "+inf%");
    assert_eq!(get_percent_difference(0, 0), "+NaN%");
}

#[test]
fn group_bars_and_labels() {
    let o = options(true);
    let g = group("1024", &[(1_024_000, "#FFCF56"), (512_000, "#EDEAD0")]);
    let shapes = draw_group(&o, &g, 90, 20, 3, 1_024_000);
    assert_eq!(shapes.len(), 4);
    assert_eq!(rect_of(&shapes[0]), (90, 10, 20, 500, "#FFCF56".to_string()));
    assert_eq!(rect_of(&shapes[1]), (113, 260, 20, 250, "#EDEAD0".to_string()));
    assert_eq!(text_of(&shapes[2]), (90, 530, "1024".to_string(), Anchor::Start));
    assert_eq!(text_of(&shapes[3]), (111, 0, "+100.00%".to_string(), Anchor::Middle));
    let plain = draw_group(&options(false), &g, 90, 20, 3, 1_024_000);
    assert_eq!(plain.len(), 3);
}

#[test]
fn delta_label_is_centered_on_the_bars() {
    let o = options(true);
    let g = group("g", &[(10, "#1"), (20, "#2"), (40, "#3")]);
    let shapes = draw_group(&o, &g, 100, 20, 4, 40);
    let (x, y, content, _) = text_of(&shapes[4]);
    assert_eq!(x, 100 + (3 * 20 + 2 * 4) / 2);
    assert_eq!(y, 0);
    assert_eq!(content, "+300.00%");
}

#[test]
fn bars_stay_inside_the_plot() {
    let o = options(false);
    let values = [0u64, 1, 17, 499, 500, 999, 1000];
    let bars: Vec<(u64, &str)> = values.iter().map(|v| (*v, "#000000")).collect();
    let g = group("g", &bars);
    let shapes = draw_group(&o, &g, 90, 5, 1, 1000);
    for s in &shapes[..values.len()] {
        let (_, y, _, h, _) = rect_of(s);
        assert!(h >= 0 && h <= 500);
        assert!(y >= 10 && y <= 510);
        assert_eq!(y + h, 510);
    }
}

#[test]
fn axes_shapes() {
    let o = options(false);
    let y = draw_y_scale(&o, "Gb/s", 90, 1_024_000);
    assert_eq!(y.len(), 26);
    match &y[3] {
        Shape::Line { x1, y1, x2, y2, stroke } => {
            assert_eq!((*x1, *y1, *x2, *y2), (85, 413, 80, 413));
            assert_eq!(stroke, "#000000");
        }
        _ => panic!("not a line"),
    }
    match &y[4] {
        Shape::Line { x1, x2, stroke, .. } => {
            assert_eq!((*x1, *x2), (80, 790));
            assert_eq!(stroke, "#999999");
        }
        _ => panic!("not a line"),
    }
    assert_eq!(text_of(&y[5]), (75, 417, "0.2".to_string(), Anchor::RightToLeft));
    assert_eq!(text_of(&y[24]), (30, 255, "Gb/s".to_string(), Anchor::Middle));
    let x = draw_x_scale(&o, 90);
    match &x[0] {
        Shape::Line { x1, y1, x2, y2, .. } => assert_eq!((*x1, *y1, *x2, *y2), (85, 510, 790, 510)),
        _ => panic!("not a line"),
    }
}

#[test]
fn legend_rows() {
    let o = options(false);
    let colors = vec![("fast".to_string(), "#FFCF56".to_string()), ("slowest".to_string(), "#EDEAD0".to_string())];
    let l = draw_legend(&o, &colors);
    assert_eq!(l.len(), 5);
    assert_eq!(rect_of(&l[0]), (600, 20, 63, 60, "#FFFFFF".to_string()));
    assert_eq!(text_of(&l[1]), (610, 45, "fast".to_string(), Anchor::Start));
    assert_eq!(rect_of(&l[2]), (633, 35, 20, 10, "#FFCF56".to_string()));
    assert_eq!(rect_of(&l[4]), (633, 55, 20, 10, "#EDEAD0".to_string()));
}

#[test]
fn render_scenario_two_bars() {
    let o = options(true);
    let groups = vec![group("1024", &[(1_024_000, "#FFCF56"), (512_000, "#EDEAD0")])];
    let colors = vec![("fast".to_string(), "#FFCF56".to_string()), ("slow".to_string(), "#EDEAD0".to_string())];
    let chart = render_grouped_bar_chart("copy", &o, &groups, &colors).unwrap();
    let bars = &chart.groups[0];
    let (_, _, _, h1, _) = rect_of(&bars[0]);
    let (_, _, _, h2, _) = rect_of(&bars[1]);
    assert_eq!(h1, 2 * h2);
    assert_eq!(text_of(&bars[3]).2, "+100.00%");
    assert_eq!(text_of(&chart.title), (640, 0, "copy".to_string(), Anchor::Middle));
    let all = chart.into_shapes();
    assert_eq!(all.len(), 26 + 1 + 4 + 5 + 1);
    assert_eq!(text_of(&all[all.len() - 1]).2, "copy");
}

#[test]
fn render_places_groups_side_by_side() {
    let o = options(false);
    let groups = vec![group("a", &[(10, "#1"), (20, "#2")]), group("b", &[(40, "#1")])];
    let colors = vec![("v".to_string(), "#1".to_string())];
    let chart = render_grouped_bar_chart("", &o, &groups, &colors).unwrap();
    assert_eq!(rect_of(&chart.groups[0][0]).0, 90);
    assert_eq!(rect_of(&chart.groups[1][0]).0, 440);
    assert_eq!(rect_of(&chart.groups[1][0]).3, 500);
    assert_eq!(rect_of(&chart.groups[0][1]).3, 250);
}

#[test]
fn render_errors() {
    let o = options(false);
    let colors = vec![("v".to_string(), "#1".to_string())];
    assert_eq!(render_grouped_bar_chart("", &o, &vec![], &colors).unwrap_err(), RenderError::EmptyInput);
    let g = vec![group("a", &[(1, "#1")])];
    let tiny = GroupBarOptions { total_height: 100, ..o };
    assert_eq!(render_grouped_bar_chart("", &tiny, &g, &colors).unwrap_err(), RenderError::DegenerateLayout);
    let zero = vec![group("a", &[(0, "#1")]), group("b", &[])];
    assert_eq!(render_grouped_bar_chart("", &o, &zero, &colors).unwrap_err(), RenderError::NoData);
}
