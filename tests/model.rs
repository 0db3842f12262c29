use bench_chart::grouping::group_records;
use bench_chart::model::{assign_colors, build_chart, distinct_variants, num_bytes_to_name, ModelError};
use bench_chart::record::BenchRecord;

fn rec(name: &str, variant: &str, bytes: u32, t: u64) -> BenchRecord {
    BenchRecord { bench_name: name.to_string(), variant: variant.to_string(), num_bytes: bytes, throughput: t }
}

#[test]
fn known_sizes_have_names() {
    assert_eq!(num_bytes_to_name(725), "725b Text");
    assert_eq!(num_bytes_to_name(66675), "66K JSON");
    assert_eq!(num_bytes_to_name(64723), "65K Text");
    assert_eq!(num_bytes_to_name(9991663), "10Mb Dickens");
    assert_eq!(num_bytes_to_name(34308), "34K Text");
}

#[test]
fn unknown_size_label_is_its_number() {
    assert_eq!(num_bytes_to_name(1024), "1024");
    assert_eq!(num_bytes_to_name(0), "0");
    assert_eq!(num_bytes_to_name(4294967295), "4294967295");
}

#[test]
fn colors_come_from_the_end_of_the_palette() {
    let names = vec!["alpha".to_string(), "beta".to_string()];
    let c = assign_colors(&names).unwrap();
    assert_eq!(c[0], ("alpha".to_string(), "#FFCF56".to_string()));
    assert_eq!(c[1], ("beta".to_string(), "#EDEAD0".to_string()));
}

#[test]
fn too_many_variants_exhaust_the_palette() {
    let names: Vec<String> = (0..6).map(|i| format!("v{}", i)).collect();
    assert_eq!(assign_colors(&names).unwrap_err(), ModelError::PaletteExhausted);
    let five: Vec<String> = (0..5).map(|i| format!("v{}", i)).collect();
    assert_eq!(assign_colors(&five).unwrap()[4].1, "#3AB795");
}

#[test]
fn variants_are_distinct_and_sorted() {
    let g = group_records(&vec![rec("a", "zeta", 1, 1), rec("b", "alpha", 1, 1), rec("a", "zeta", 2, 1)]);
    assert_eq!(distinct_variants(&g), vec!["alpha".to_string(), "zeta".to_string()]);
}

#[test]
fn colors_depend_on_variant_names_only() {
    let g1 = group_records(&vec![rec("a", "slow", 1, 1), rec("a", "fast", 1, 2)]);
    let g2 = group_records(&vec![
        rec("b", "fast", 7, 9),
        rec("c", "fast", 8, 9),
        rec("c", "slow", 8, 9),
        rec("d", "slow", 3, 1),
    ]);
    let (_, c1) = build_chart(&g1).unwrap();
    let (_, c2) = build_chart(&g2).unwrap();
    assert_eq!(c1, c2);
    assert_eq!(c1[0], ("fast".to_string(), "#FFCF56".to_string()));
    assert_eq!(c1[1], ("slow".to_string(), "#EDEAD0".to_string()));
}

#[test]
fn chart_groups_keep_record_order_and_colors() {
    let g = group_records(&vec![rec("copy", "slow", 725, 5), rec("copy", "fast", 725, 9), rec("copy", "fast", 99, 3)]);
    let (groups, colors) = build_chart(&g).unwrap();
    assert_eq!(colors.len(), 2);
    assert_eq!(groups.len(), 2);
    assert_eq!(groups[0].label, "725b Text");
    assert_eq!(groups[0].values_and_color, vec![(5, "#EDEAD0".to_string()), (9, "#FFCF56".to_string())]);
    assert_eq!(groups[1].label, "99");
}

#[test]
fn chart_fails_on_six_variants() {
    let records: Vec<BenchRecord> = (0..6).map(|i| rec("a", &format!("v{}", i), 1, 1)).collect();
    let g = group_records(&records);
    assert_eq!(build_chart(&g).unwrap_err(), ModelError::PaletteExhausted);
}
