use energy_model_visualizer::arrange::arrange;
use energy_model_visualizer::breakdown::{break_down, find_bucket, name_bucket};
use energy_model_visualizer::category_filter::{apply_filter, entity_passes};
use energy_model_visualizer::combine::combine;
use energy_model_visualizer::compaction::compact;
use energy_model_visualizer::gather::gather;
use energy_model_visualizer::hierarchy::{find_parent, is_member_under, is_under, is_under_any};
use energy_model_visualizer::intervals::build_intervals;
use energy_model_visualizer::model::{
    to_pieces, to_segments, CategoryNode, Membership, OutputSegment, PeriodLength, PeriodMapping,
    TimeBlockRow,
};
use energy_model_visualizer::pipeline::{
    build_local_series, parse_selection, rows_of_year, run_pipeline, select_series, Selection,
};
use energy_model_visualizer::ratio::Ratio;
use energy_model_visualizer::resample::{explode, parse_aggregation, resample, Aggregation};
use energy_model_visualizer::series::{EngineError, Piece};
use energy_model_visualizer::timeline::{find_duration, map_to_global_axis};
use energy_model_visualizer::weighting::{assign_weighted, place_blocks, place_periods, Placement};
use std::collections::HashMap;

fn r(num: i64, den: u32) -> Ratio {
    Ratio { num, den }
}

fn p(group: u64, year: u32, period: u64, start: u64, end: u64, num: i64, den: u32) -> Piece {
    Piece { group, year, period, start, end, value: r(num, den) }
}

fn row(entity_key: u64, year: u32, rep_period: u32, start: u32, end: u32, value: i64) -> TimeBlockRow {
    TimeBlockRow { entity_key, year, rep_period, block_start: start, block_end: end, value }
}

fn mapping(year: u32, rep_period: u32, period: u32, weight: u32) -> PeriodMapping {
    PeriodMapping { year, rep_period, period, weight }
}

fn length(year: u32, rep_period: u32, resolution_hours: u32, timestep_count: u32) -> PeriodLength {
    PeriodLength { year, rep_period, resolution_hours, timestep_count }
}

fn place(year: u32, period: u32, resolution_hours: u32, timestep_count: u32) -> Placement {
    Placement { year, rep_period: period, period, weight: 1, resolution_hours, timestep_count }
}

fn node(id: i32, name: &str, parent_id: Option<i32>, level: u32) -> CategoryNode {
    CategoryNode { id, name: name.to_string(), parent_id, level }
}

#[test]
fn ratio_sums_products_and_quotients() {
    assert_eq!(Ratio::whole(-4), r(-4, 1));
    assert_eq!(r(1, 2).checked_add(&r(3, 2)), Some(r(4, 2)));
    assert_eq!(r(1, 2).checked_add(&r(1, 3)), Some(r(5, 6)));
    assert_eq!(r(-1, 2).checked_add(&r(1, 3)), Some(r(-1, 6)));
    assert_eq!(r(7, 3).checked_scale(3), Some(r(21, 3)));
    assert_eq!(r(7, 3).checked_scale(0), Some(r(0, 3)));
    assert_eq!(r(7, 3).checked_div(4), Some(r(7, 12)));
    assert!(r(1, 2).equals(&r(2, 4)));
    assert!(r(-3, 6).equals(&r(-1, 2)));
    assert!(!r(1, 2).equals(&r(1, 3)));
    assert!(r(0, 5).equals(&r(0, 1)));
    assert!(!r(1, 2).equals(&r(-1, 2)));
    assert!(r(i64::MAX, u32::MAX).equals(&r(i64::MAX, u32::MAX)));
    assert!(!r(i64::MAX, u32::MAX).equals(&r(i64::MIN, u32::MAX)));
}

#[test]
fn ratio_refuses_what_does_not_fit() {
    assert_eq!(r(i64::MAX, 1).checked_add(&r(1, 1)), None);
    assert_eq!(r(i64::MIN, 1).checked_add(&r(-1, 1)), None);
    assert_eq!(r(i64::MAX, 1).checked_add(&r(-1, 1)), Some(r(i64::MAX - 1, 1)));
    assert_eq!(r(1, 65536).checked_add(&r(1, 65537)), None);
    assert_eq!(r(1, 65535).checked_add(&r(1, 65537)), Some(r(131072, 4294967295)));
    assert_eq!(r(i64::MAX, 1).checked_scale(2), None);
    assert_eq!(r(i64::MIN, 1).checked_scale(u64::MAX), None);
    assert_eq!(r(1, 1).checked_scale(u64::MAX), None);
    assert_eq!(r(1, 1).checked_scale(i64::MAX as u64), Some(r(i64::MAX, 1)));
    assert_eq!(r(1, 2).checked_div(u32::MAX as u64), None);
    assert_eq!(r(1, 1).checked_div(u32::MAX as u64), Some(r(1, u32::MAX)));
    assert_eq!(r(1, u32::MAX).checked_div(u64::MAX), None);
}

#[test]
fn compaction_merges_runs_of_equal_values() {
    let rows = vec![
        p(1, 2030, 1, 1, 1, 5, 1),
        p(1, 2030, 1, 2, 2, 5, 1),
        p(1, 2030, 1, 3, 3, 10, 2),
        p(1, 2030, 1, 4, 6, 7, 1),
        p(1, 2030, 1, 7, 7, 5, 1),
        p(1, 2030, 2, 1, 1, 5, 1),
        p(2, 2030, 2, 2, 2, 5, 1),
        p(2, 2030, 2, 3, 3, 5, 1),
    ];
    let out = compact(&rows);
    assert_eq!(
        out,
        vec![
            p(1, 2030, 1, 1, 3, 5, 1),
            p(1, 2030, 1, 4, 6, 7, 1),
            p(1, 2030, 1, 7, 7, 5, 1),
            p(1, 2030, 2, 1, 1, 5, 1),
            p(2, 2030, 2, 2, 3, 5, 1),
        ]
    );
    for w in out.windows(2) {
        let same_partition =
            w[0].group == w[1].group && w[0].year == w[1].year && w[0].period == w[1].period;
        assert!(!(same_partition && w[0].value.equals(&w[1].value)));
    }
    assert_eq!(compact(&vec![]), vec![]);
    assert_eq!(compact(&out), out);
}

#[test]
fn compaction_takes_smallest_start_and_largest_end() {
    let rows = vec![p(1, 1, 1, 5, 6, 3, 1), p(1, 1, 1, 2, 9, 3, 1), p(1, 1, 1, 4, 4, 3, 1)];
    assert_eq!(compact(&rows), vec![p(1, 1, 1, 2, 9, 3, 1)]);
}

#[test]
fn arrange_orders_and_keeps_ties_in_place() {
    let pieces = vec![
        p(2, 2030, 1, 0, 1, 1, 1),
        p(1, 2031, 1, 0, 1, 2, 1),
        p(1, 2030, 2, 0, 1, 3, 1),
        p(1, 2030, 1, 5, 6, 4, 1),
        p(1, 2030, 1, 0, 9, 5, 1),
        p(1, 2030, 1, 0, 2, 6, 1),
    ];
    assert_eq!(
        arrange(&pieces),
        vec![
            p(1, 2030, 1, 0, 9, 5, 1),
            p(1, 2030, 1, 0, 2, 6, 1),
            p(1, 2030, 1, 5, 6, 4, 1),
            p(1, 2030, 2, 0, 1, 3, 1),
            p(1, 2031, 1, 0, 1, 2, 1),
            p(2, 2030, 1, 0, 1, 1, 1),
        ]
    );
}

#[test]
fn gather_sums_pieces_on_one_stretch() {
    let pieces = vec![
        p(1, 1, 1, 0, 2, 1, 1),
        p(2, 1, 1, 0, 2, 10, 1),
        p(1, 1, 1, 0, 2, 1, 2),
        p(1, 1, 1, 0, 3, 100, 1),
        p(2, 1, 1, 0, 2, -10, 1),
    ];
    assert_eq!(
        gather(&pieces),
        Some(vec![p(1, 1, 1, 0, 2, 3, 2), p(2, 1, 1, 0, 2, 0, 1), p(1, 1, 1, 0, 3, 100, 1)])
    );
    assert_eq!(gather(&vec![p(1, 1, 1, 0, 2, i64::MAX, 1), p(1, 1, 1, 0, 2, 1, 1)]), None);
}

#[test]
fn intervals_unite_the_block_ends_of_all_groups() {
    let blocks = vec![
        p(1, 2030, 7, 1, 2, 0, 1),
        p(1, 2030, 7, 3, 6, 0, 1),
        p(2, 2030, 7, 1, 4, 0, 1),
        p(2, 2030, 7, 5, 6, 0, 1),
        p(2, 2030, 8, 1, 3, 0, 1),
        p(3, 2031, 7, 1, 9, 0, 1),
    ];
    let mappings = vec![mapping(2030, 7, 1, 1), mapping(2030, 8, 1, 1), mapping(2030, 7, 2, 3)];
    assert_eq!(
        build_intervals(&blocks, &mappings),
        vec![
            p(0, 2030, 1, 0, 2, 0, 1),
            p(0, 2030, 1, 2, 3, 0, 1),
            p(0, 2030, 1, 3, 4, 0, 1),
            p(0, 2030, 1, 4, 6, 0, 1),
            p(0, 2030, 2, 0, 2, 0, 1),
            p(0, 2030, 2, 2, 4, 0, 1),
            p(0, 2030, 2, 4, 6, 0, 1),
        ]
    );
    assert_eq!(build_intervals(&blocks, &vec![]), vec![]);
    assert_eq!(build_intervals(&vec![], &mappings), vec![]);
}

#[test]
fn weighting_scales_by_weight_and_resolution() {
    let blocks = vec![p(1, 2030, 7, 1, 2, 10, 1), p(1, 2030, 7, 3, 3, 20, 1)];
    let mappings = vec![mapping(2030, 7, 1, 3)];
    let lengths = vec![length(2030, 7, 2, 3)];
    let cuts = build_intervals(&blocks, &mappings);
    assert_eq!(
        assign_weighted(&blocks, &mappings, &lengths, &cuts),
        Some(vec![p(1, 2030, 1, 0, 4, 30, 2), p(1, 2030, 1, 4, 6, 60, 2)])
    );
    assert_eq!(
        place_periods(&mappings, &lengths).len(),
        1
    );
    assert_eq!(place_blocks(&blocks, &place_periods(&mappings, &lengths)).len(), 2);
    assert_eq!(assign_weighted(&blocks, &mappings, &vec![], &cuts), Some(vec![]));
}

#[test]
fn weighting_sums_the_representative_periods_of_one_period() {
    // Period 1 stands for three times the representative period 7 and once 8.
    let blocks = vec![p(1, 2030, 7, 1, 2, 10, 1), p(1, 2030, 8, 1, 2, 100, 1)];
    let mappings = vec![mapping(2030, 7, 1, 3), mapping(2030, 8, 1, 1)];
    let lengths = vec![length(2030, 7, 1, 2), length(2030, 8, 1, 2)];
    let cuts = build_intervals(&blocks, &mappings);
    assert_eq!(
        assign_weighted(&blocks, &mappings, &lengths, &cuts),
        Some(vec![p(1, 2030, 1, 0, 2, 130, 1)])
    );
}

#[test]
fn weighting_matches_blocks_by_containment() {
    // The block 2..=3 holds the interval 1..3 (timesteps 2 and 3), not 0..1.
    let blocks = vec![p(1, 2030, 7, 2, 3, 5, 1), p(2, 2030, 7, 1, 1, 9, 1), p(2, 2030, 7, 2, 3, 9, 1)];
    let mappings = vec![mapping(2030, 7, 1, 1)];
    let lengths = vec![length(2030, 7, 1, 3)];
    let cuts = build_intervals(&blocks, &mappings);
    assert_eq!(cuts, vec![p(0, 2030, 1, 0, 1, 0, 1), p(0, 2030, 1, 1, 3, 0, 1)]);
    assert_eq!(
        assign_weighted(&blocks, &mappings, &lengths, &cuts),
        Some(vec![
            p(1, 2030, 1, 1, 3, 5, 1),
            p(2, 2030, 1, 0, 1, 9, 1),
            p(2, 2030, 1, 1, 3, 9, 1)
        ])
    );
}

#[test]
fn weighting_refuses_products_that_do_not_fit() {
    let blocks = vec![p(1, 2030, 7, 1, 2, i64::MAX, 1)];
    let mappings = vec![mapping(2030, 7, 1, 2)];
    let lengths = vec![length(2030, 7, 1, 2)];
    let cuts = build_intervals(&blocks, &mappings);
    assert_eq!(assign_weighted(&blocks, &mappings, &lengths, &cuts), None);
}

#[test]
fn global_axis_lays_periods_end_to_end() {
    let local = vec![
        p(1, 2030, 3, 0, 4, 7, 1),
        p(1, 2030, 1, 0, 2, 1, 1),
        p(1, 2030, 1, 2, 6, 2, 1),
        p(1, 2030, 2, 0, 3, 3, 1),
        p(2, 2030, 2, 0, 3, 4, 1),
        p(1, 2031, 5, 0, 9, 5, 1),
    ];
    let places = vec![
        place(2030, 1, 2, 3),
        place(2030, 2, 1, 3),
        place(2030, 3, 4, 1),
        place(2031, 5, 3, 3),
    ];
    assert_eq!(
        map_to_global_axis(&local, &places),
        Some(vec![
            p(1, 2030, 1, 0, 2, 1, 1),
            p(1, 2030, 1, 2, 6, 2, 1),
            p(1, 2030, 2, 6, 9, 3, 1),
            p(1, 2030, 3, 9, 13, 7, 1),
            p(1, 2031, 5, 0, 9, 5, 1),
            p(2, 2030, 2, 0, 3, 4, 1),
        ])
    );
    assert_eq!(map_to_global_axis(&vec![], &places), Some(vec![]));
    let far = vec![p(1, 2030, 1, 0, 6, 1, 1), p(1, 2030, 2, u64::MAX - 3, u64::MAX - 2, 1, 1)];
    assert_eq!(map_to_global_axis(&far, &places), None);
}

#[test]
fn a_period_lasts_its_resolution_times_its_timesteps() {
    // The pieces of the first period end at hour 6; the period has 4 timesteps of 2 hours.
    let local = vec![p(1, 2030, 1, 0, 6, 1, 1), p(1, 2030, 2, 0, 3, 3, 1), p(1, 2030, 4, 1, 2, 5, 1)];
    let places = vec![place(2030, 1, 2, 4), place(2030, 2, 1, 3)];
    assert_eq!(find_duration(&places, 2030, 1), 8);
    assert_eq!(find_duration(&places, 2030, 2), 3);
    assert_eq!(find_duration(&places, 2030, 3), 0);
    assert_eq!(find_duration(&places, 2031, 1), 0);
    assert_eq!(find_duration(&vec![place(2030, 1, u32::MAX, u32::MAX)], 2030, 1), 18446744065119617025);
    assert_eq!(
        map_to_global_axis(&local, &places),
        Some(vec![
            p(1, 2030, 1, 0, 6, 1, 1),
            p(1, 2030, 2, 8, 11, 3, 1),
            p(1, 2030, 4, 12, 13, 5, 1),
        ])
    );
    // Without a representative period a period has no hours.
    assert_eq!(
        map_to_global_axis(&local, &vec![]),
        Some(vec![p(1, 2030, 1, 0, 6, 1, 1), p(1, 2030, 2, 0, 3, 3, 1), p(1, 2030, 4, 1, 2, 5, 1)])
    );
}

#[test]
fn combine_is_a_union_with_summed_overlap() {
    let first = vec![p(1, 2030, 1, 0, 2, 10, 1), p(1, 2030, 1, 2, 3, 20, 1), p(2, 2030, 1, 0, 3, 5, 1)];
    let second = vec![p(1, 2030, 1, 0, 3, 100, 1), p(3, 2030, 1, 0, 3, 7, 1), p(1, 2030, 2, 0, 3, 9, 1)];
    assert_eq!(
        combine(&first, &second),
        Some(vec![
            p(1, 2030, 1, 0, 2, 110, 1),
            p(1, 2030, 1, 2, 3, 120, 1),
            p(2, 2030, 1, 0, 3, 5, 1),
            p(3, 2030, 1, 0, 3, 7, 1),
            p(1, 2030, 2, 0, 3, 9, 1),
        ])
    );
    assert_eq!(combine(&first, &vec![]), Some(first.clone()));
    assert_eq!(combine(&vec![], &second), Some(second.clone()));
    assert_eq!(
        combine(&vec![p(1, 1, 1, 0, 1, i64::MAX, 1)], &vec![p(1, 1, 1, 0, 1, 1, 1)]),
        None
    );
}

#[test]
fn resample_cuts_at_the_windows() {
    let axis = vec![p(1, 2030, 4, 3, 11, 2, 1)];
    assert_eq!(
        explode(&axis, 4),
        vec![p(1, 2030, 0, 3, 4, 2, 1), p(1, 2030, 0, 4, 8, 2, 1), p(1, 2030, 0, 8, 11, 2, 1)]
    );
    assert_eq!(explode(&vec![p(1, 1, 1, 5, 5, 2, 1), p(1, 1, 1, 6, 5, 2, 1)], 4), vec![]);
    assert_eq!(
        explode(&vec![p(1, 1, 1, u64::MAX - 1, u64::MAX, 2, 1)], u64::MAX),
        vec![p(1, 1, 0, u64::MAX - 1, u64::MAX, 2, 1)]
    );
    assert_eq!(explode(&axis, 0), vec![]);
    assert_eq!(
        resample(&axis, 4, Aggregation::Sum),
        Ok(vec![p(1, 2030, 0, 3, 4, 2, 1), p(1, 2030, 0, 4, 8, 8, 1), p(1, 2030, 0, 8, 11, 6, 1)])
    );
}

#[test]
fn resample_weights_partial_windows() {
    // Hours 0..2 hold 10, hours 2..7 hold 4: the windows of width 3 are cut inside both.
    let axis = vec![p(1, 2030, 1, 0, 2, 10, 1), p(1, 2030, 1, 2, 7, 4, 1)];
    assert_eq!(
        resample(&axis, 3, Aggregation::Sum),
        Ok(vec![p(1, 2030, 0, 0, 3, 24, 1), p(1, 2030, 0, 3, 6, 12, 1), p(1, 2030, 0, 6, 7, 4, 1)])
    );
    assert_eq!(
        resample(&axis, 3, Aggregation::Avg),
        Ok(vec![p(1, 2030, 0, 0, 3, 24, 3), p(1, 2030, 0, 3, 6, 12, 3), p(1, 2030, 0, 6, 7, 4, 1)])
    );
    assert_eq!(resample(&axis, 0, Aggregation::Sum), Err(EngineError::ZeroWidth));
    assert_eq!(resample(&vec![], 0, Aggregation::Avg), Err(EngineError::ZeroWidth));
    assert_eq!(resample(&vec![], 5, Aggregation::Avg), Ok(vec![]));
    assert_eq!(
        resample(&vec![p(1, 1, 1, 0, 4, i64::MAX, 1)], 2, Aggregation::Sum),
        Err(EngineError::Overflow)
    );
    assert_eq!(
        resample(&vec![p(1, 1, 1, 0, 4, 1, u32::MAX)], 2, Aggregation::Avg),
        Err(EngineError::Overflow)
    );
}

#[test]
fn resample_keeps_groups_and_years_apart() {
    let axis = vec![p(1, 2030, 1, 0, 2, 1, 1), p(2, 2030, 1, 0, 2, 5, 1), p(1, 2031, 1, 0, 2, 9, 1)];
    assert_eq!(
        resample(&axis, 10, Aggregation::Sum),
        Ok(vec![p(1, 2030, 0, 0, 2, 2, 1), p(2, 2030, 0, 0, 2, 10, 1), p(1, 2031, 0, 0, 2, 18, 1)])
    );
}

#[test]
fn resample_at_the_width_of_the_pieces_is_the_identity() {
    let axis = vec![
        p(1, 2030, 0, 0, 4, 3, 2),
        p(1, 2030, 0, 4, 8, 5, 1),
        p(1, 2030, 0, 8, 12, -3, 2),
        p(2, 2030, 0, 0, 4, 1, 1),
    ];
    let avg = resample(&axis, 4, Aggregation::Avg).unwrap();
    assert_eq!(avg.len(), axis.len());
    for (out, piece) in avg.iter().zip(axis.iter()) {
        assert_eq!((out.group, out.year, out.start, out.end), (piece.group, piece.year, piece.start, piece.end));
        assert!(out.value.equals(&piece.value));
    }
    let hourly: Vec<Piece> = (0..5).map(|h| p(1, 2030, 0, h, h + 1, (h as i64) * 7 - 3, 3)).collect();
    assert_eq!(resample(&hourly, 1, Aggregation::Sum), Ok(hourly.clone()));
    assert_eq!(resample(&hourly, 1, Aggregation::Avg), Ok(hourly.clone()));
}

#[test]
fn modes_and_selections_are_read_exactly() {
    assert_eq!(parse_aggregation("sum"), Ok(Aggregation::Sum));
    assert_eq!(parse_aggregation("avg"), Ok(Aggregation::Avg));
    for bad in ["", "Sum", "average", "sum ", "max"] {
        assert_eq!(parse_aggregation(bad), Err(EngineError::UnknownMode));
    }
    assert_eq!(parse_selection("short-term"), Ok(Selection::ShortTerm));
    assert_eq!(parse_selection("long-term"), Ok(Selection::LongTerm));
    assert_eq!(parse_selection("both"), Ok(Selection::Both));
    for bad in ["", "short", "Both", "long term"] {
        assert_eq!(parse_selection(bad), Err(EngineError::UnknownSelection));
    }
}

// technology(1) > { renewable(2) > { wind(4), solar(5) }, fossil(3) > { gas(6) } }; location(10) > { north(11) }
fn tree() -> Vec<CategoryNode> {
    vec![
        node(1, "technology", None, 2),
        node(2, "renewable", Some(1), 1),
        node(3, "fossil", Some(1), 1),
        node(4, "wind", Some(2), 0),
        node(5, "solar", Some(2), 0),
        node(6, "gas", Some(3), 0),
        node(10, "location", None, 1),
        node(11, "north", Some(10), 0),
    ]
}

// Entity 1: wind in the north; 2: solar; 3: gas in the north; 4: nowhere.
fn members() -> Vec<Membership> {
    vec![
        Membership { entity_key: 1, root_id: 1, leaf_id: 4 },
        Membership { entity_key: 1, root_id: 10, leaf_id: 11 },
        Membership { entity_key: 2, root_id: 1, leaf_id: 5 },
        Membership { entity_key: 3, root_id: 1, leaf_id: 6 },
        Membership { entity_key: 3, root_id: 10, leaf_id: 11 },
    ]
}

#[test]
fn hierarchy_closure_follows_the_parents() {
    let nodes = tree();
    assert_eq!(find_parent(&nodes, 4), Some(2));
    assert_eq!(find_parent(&nodes, 1), None);
    assert_eq!(find_parent(&nodes, 99), None);
    assert!(is_under(&nodes, 4, 4));
    assert!(is_under(&nodes, 4, 2));
    assert!(is_under(&nodes, 4, 1));
    assert!(!is_under(&nodes, 4, 3));
    assert!(!is_under(&nodes, 2, 4));
    assert!(!is_under(&nodes, 4, 10));
    assert!(is_under(&nodes, 99, 99));
    assert!(!is_under(&nodes, 99, 1));
    assert!(is_under_any(&nodes, 6, &vec![2, 3]));
    assert!(!is_under_any(&nodes, 6, &vec![2, 10]));
    assert!(!is_under_any(&nodes, 6, &vec![]));
    assert!(is_member_under(&members(), &nodes, 1, 10));
    assert!(!is_member_under(&members(), &nodes, 2, 10));
    assert!(!is_member_under(&members(), &nodes, 4, 1));
}

#[test]
fn hierarchy_walk_ends_on_a_cycle() {
    let nodes = vec![node(1, "a", Some(2), 0), node(2, "b", Some(1), 0)];
    assert!(is_under(&nodes, 1, 2));
    assert!(!is_under(&nodes, 1, 3));
    let chain: Vec<CategoryNode> =
        (0..50).map(|i| node(i, "n", if i == 49 { None } else { Some(i + 1) }, 0)).collect();
    assert!(is_under(&chain, 0, 49));
    assert!(!is_under(&chain, 49, 0));
}

#[test]
fn filter_asks_every_root_and_any_allowed_node() {
    let nodes = tree();
    let memberships = members();
    let mut filter: HashMap<i32, Vec<i32>> = HashMap::new();
    for entity in 1..=4 {
        assert!(entity_passes(&filter, &memberships, &nodes, entity));
    }
    filter.insert(1, vec![2, 6]);
    assert!(entity_passes(&filter, &memberships, &nodes, 1));
    assert!(entity_passes(&filter, &memberships, &nodes, 2));
    assert!(entity_passes(&filter, &memberships, &nodes, 3));
    assert!(!entity_passes(&filter, &memberships, &nodes, 4));
    filter.insert(10, vec![10]);
    assert!(entity_passes(&filter, &memberships, &nodes, 1));
    assert!(!entity_passes(&filter, &memberships, &nodes, 2));
    assert!(entity_passes(&filter, &memberships, &nodes, 3));
    filter.insert(1, vec![2]);
    assert!(!entity_passes(&filter, &memberships, &nodes, 3));
    // The allowed node must lie under the root that the filter names.
    let mut crossed: HashMap<i32, Vec<i32>> = HashMap::new();
    crossed.insert(10, vec![2]);
    assert!(!entity_passes(&crossed, &memberships, &nodes, 1));
    // A root without allowed nodes lets no entity pass.
    let mut none: HashMap<i32, Vec<i32>> = HashMap::new();
    none.insert(1, vec![]);
    assert!(!entity_passes(&none, &memberships, &nodes, 1));
    let rows = vec![row(1, 1, 1, 1, 1, 1), row(2, 1, 1, 1, 1, 2), row(3, 1, 1, 1, 1, 3), row(1, 1, 1, 2, 2, 4)];
    assert_eq!(
        apply_filter(&rows, &filter, &memberships, &nodes),
        vec![row(1, 1, 1, 1, 1, 1), row(1, 1, 1, 2, 2, 4)]
    );
}

#[test]
fn breakdown_takes_the_first_node_in_list_order() {
    let nodes = tree();
    let memberships = members();
    assert_eq!(find_bucket(&memberships, &nodes, 1, &vec![2, 1]), 0);
    assert_eq!(find_bucket(&memberships, &nodes, 1, &vec![1, 2]), 0);
    assert_eq!(find_bucket(&memberships, &nodes, 3, &vec![2, 1]), 1);
    assert_eq!(find_bucket(&memberships, &nodes, 3, &vec![2, 11, 3]), 1);
    assert_eq!(find_bucket(&memberships, &nodes, 2, &vec![11, 6]), 2);
    assert_eq!(find_bucket(&memberships, &nodes, 4, &vec![1, 10]), 2);
    assert_eq!(find_bucket(&memberships, &nodes, 4, &vec![]), 0);
    // Two nodes of one name are one bucket, and a node named `Other` takes the others in.
    let named = vec![
        node(1, "green", None, 0),
        node(2, "green", None, 0),
        node(3, "Other", None, 0),
        node(4, "grey", None, 0),
    ];
    let hang = vec![
        Membership { entity_key: 1, root_id: 1, leaf_id: 1 },
        Membership { entity_key: 2, root_id: 2, leaf_id: 2 },
        Membership { entity_key: 3, root_id: 3, leaf_id: 3 },
        Membership { entity_key: 4, root_id: 4, leaf_id: 4 },
    ];
    assert_eq!(find_bucket(&hang, &named, 1, &vec![4, 1, 2, 3]), 1);
    assert_eq!(find_bucket(&hang, &named, 2, &vec![4, 1, 2, 3]), 1);
    assert_eq!(find_bucket(&hang, &named, 3, &vec![4, 1, 2, 3]), 3);
    assert_eq!(find_bucket(&hang, &named, 5, &vec![4, 1, 2, 3]), 3);
    assert_eq!(find_bucket(&hang, &named, 5, &vec![4, 1, 2]), 3);
    assert_eq!(find_bucket(&hang, &named, 4, &vec![4, 1, 2, 3]), 0);
    // Nodes that the hierarchy lacks have no name, and share a bucket.
    assert_eq!(find_bucket(&vec![Membership { entity_key: 7, root_id: 9, leaf_id: 9 }], &named, 7, &vec![8, 9]), 0);
    let breakdown = vec![2, 77];
    assert_eq!(name_bucket(&nodes, &breakdown, 0), Some("renewable".to_string()));
    assert_eq!(name_bucket(&nodes, &breakdown, 1), None);
    assert_eq!(name_bucket(&nodes, &breakdown, 2), Some("Other".to_string()));
    assert_eq!(name_bucket(&nodes, &breakdown, 9), Some("Other".to_string()));
}

#[test]
fn breakdown_sums_the_rows_of_a_bucket_on_one_block() {
    let nodes = tree();
    let memberships = members();
    let pieces = to_pieces(&vec![
        row(1, 2030, 1, 1, 2, 10),
        row(2, 2030, 1, 1, 2, 20),
        row(3, 2030, 1, 1, 2, 40),
        row(4, 2030, 1, 1, 2, 80),
        row(2, 2030, 1, 3, 3, 5),
        row(4, 2031, 1, 1, 2, 1),
    ]);
    let out = break_down(&pieces, &memberships, &nodes, &vec![2]).unwrap();
    assert_eq!(
        out,
        vec![
            p(0, 2030, 1, 1, 2, 30, 1),
            p(1, 2030, 1, 1, 2, 120, 1),
            p(0, 2030, 1, 3, 3, 5, 1),
            p(1, 2031, 1, 1, 2, 1, 1),
        ]
    );
    // On every block the buckets together hold what the entities hold.
    for (year, start, end) in [(2030, 1, 2), (2030, 3, 3), (2031, 1, 2)] {
        let on = |s: &Vec<Piece>| -> i64 {
            s.iter()
                .filter(|x| x.year == year && x.start == start && x.end == end)
                .map(|x| x.value.num)
                .sum()
        };
        assert_eq!(on(&out), on(&pieces));
    }
    let big = to_pieces(&vec![row(1, 1, 1, 1, 1, i64::MAX), row(2, 1, 1, 1, 1, 1)]);
    assert_eq!(break_down(&big, &memberships, &nodes, &vec![2]), None);
}

#[test]
fn rows_of_the_year_and_zero_values() {
    let rows = vec![row(1, 2030, 1, 1, 1, 5), row(1, 2031, 1, 1, 1, 6), row(2, 2030, 1, 1, 1, 7)];
    assert_eq!(rows_of_year(&rows, 2030, true), vec![rows[0], rows[2]]);
    assert_eq!(
        rows_of_year(&rows, 2030, false),
        vec![row(1, 2030, 1, 1, 1, 0), row(2, 2030, 1, 1, 1, 0)]
    );
    assert_eq!(rows_of_year(&rows, 1999, true), vec![]);
}

fn two_period_tables() -> (Vec<PeriodMapping>, Vec<PeriodLength>) {
    (
        vec![mapping(2030, 1, 1, 1), mapping(2030, 2, 2, 2), mapping(2030, 1, 3, 1)],
        vec![length(2030, 1, 1, 4), length(2030, 2, 2, 3)],
    )
}

fn two_entity_rows() -> Vec<TimeBlockRow> {
    vec![
        row(1, 2030, 1, 1, 2, 6),
        row(1, 2030, 1, 3, 4, 6),
        row(1, 2030, 2, 1, 1, 3),
        row(1, 2030, 2, 2, 3, 9),
        row(2, 2030, 1, 1, 4, 1),
        row(2, 2030, 2, 1, 3, 1),
    ]
}

fn answer(width: u64, agg: &str) -> Vec<OutputSegment> {
    let (mappings, lengths) = two_period_tables();
    run_pipeline(
        &two_entity_rows(),
        &mappings,
        &lengths,
        &vec![],
        &vec![],
        &HashMap::new(),
        &vec![],
        &vec![],
        2030,
        width,
        agg,
        "short-term",
        true,
        false,
    )
    .unwrap()
}

#[test]
fn local_series_and_axis_of_two_periods() {
    let (mappings, lengths) = two_period_tables();
    let local = build_local_series(&to_pieces(&two_entity_rows()), &mappings, &lengths).unwrap();
    let places = place_periods(&mappings, &lengths);
    assert_eq!(
        local,
        vec![
            p(1, 2030, 1, 0, 4, 6, 1),
            p(1, 2030, 2, 0, 2, 6, 2),
            p(1, 2030, 2, 2, 6, 18, 2),
            p(1, 2030, 3, 0, 4, 6, 1),
            p(2, 2030, 1, 0, 4, 1, 1),
            p(2, 2030, 2, 0, 6, 2, 2),
            p(2, 2030, 3, 0, 4, 1, 1),
        ]
    );
    assert_eq!(
        select_series(&local, &vec![], Selection::ShortTerm, &places).unwrap(),
        vec![
            p(1, 2030, 1, 0, 4, 6, 1),
            p(1, 2030, 2, 4, 6, 6, 2),
            p(1, 2030, 2, 6, 10, 18, 2),
            p(1, 2030, 3, 10, 14, 6, 1),
            p(2, 2030, 1, 0, 4, 1, 1),
            p(2, 2030, 2, 4, 10, 2, 2),
            p(2, 2030, 3, 10, 14, 1, 1),
        ]
    );
    assert_eq!(select_series(&local, &vec![], Selection::LongTerm, &places), Some(vec![]));
    assert_eq!(
        select_series(&vec![], &vec![p(5, 1, 1, 0, 2, 1, 1)], Selection::Both, &places),
        Some(vec![p(5, 1, 1, 0, 2, 1, 1)])
    );
}

#[test]
fn answer_covers_each_group_without_gap_or_overlap() {
    for width in [1, 2, 3, 4, 5, 7, 14, 100] {
        for agg in ["sum", "avg"] {
            let out = answer(width, agg);
            for group in [1, 2] {
                let mine: Vec<&OutputSegment> = out.iter().filter(|s| s.group_key == group).collect();
                assert!(!mine.is_empty());
                assert_eq!(mine[0].global_start, 0);
                assert_eq!(mine[mine.len() - 1].global_end, 14);
                for s in &mine {
                    assert!(s.global_start < s.global_end);
                    assert_eq!(s.year, 2030);
                }
                for w in mine.windows(2) {
                    assert_eq!(w[0].global_end, w[1].global_start);
                    assert!(!w[0].value.equals(&w[1].value));
                }
            }
            let mut sorted = out.clone();
            sorted.sort_by_key(|s| (s.group_key, s.year, s.global_start));
            assert_eq!(sorted, out);
        }
    }
}

#[test]
fn answer_of_two_periods_by_hours() {
    assert_eq!(
        to_segments(&vec![p(1, 2030, 0, 0, 6, 6, 1)]),
        vec![OutputSegment { group_key: 1, year: 2030, global_start: 0, global_end: 6, value: r(6, 1) }]
    );
    let seg = |g: u64, s: u64, e: u64, num: i64, den: u32| OutputSegment {
        group_key: g,
        year: 2030,
        global_start: s,
        global_end: e,
        value: r(num, den),
    };
    // Entity 1 holds 6 on hours 0..4, 3 on 4..6, 9 on 6..10 and 6 on 10..14; entity 2 holds 1.
    assert_eq!(
        answer(1, "avg"),
        vec![seg(1, 0, 4, 6, 1), seg(1, 4, 6, 6, 2), seg(1, 6, 10, 18, 2), seg(1, 10, 14, 6, 1), seg(2, 0, 14, 1, 1)]
    );
    assert_eq!(
        answer(7, "sum"),
        vec![seg(1, 0, 7, 78, 2), seg(1, 7, 14, 54 + 48, 2), seg(2, 0, 14, 14, 2)]
    );
    assert_eq!(answer(14, "avg"), vec![seg(1, 0, 14, 180, 28), seg(2, 0, 14, 28, 28)]);
}

#[test]
fn no_segment_is_of_an_excluded_entity() {
    let nodes = tree();
    let memberships = members();
    let rows = vec![
        row(1, 2030, 1, 1, 4, 1),
        row(2, 2030, 1, 1, 4, 2),
        row(3, 2030, 1, 1, 4, 3),
        row(4, 2030, 1, 1, 4, 4),
    ];
    let (mappings, lengths) = two_period_tables();
    let mut filter: HashMap<i32, Vec<i32>> = HashMap::new();
    filter.insert(1, vec![2, 3]);
    filter.insert(10, vec![11]);
    let out = run_pipeline(
        &rows, &mappings, &lengths, &memberships, &nodes, &filter, &vec![], &vec![], 2030, 2, "sum",
        "short-term", true, false,
    )
    .unwrap();
    let groups: Vec<u64> = out.iter().map(|s| s.group_key).collect();
    assert!(groups.contains(&1) && groups.contains(&3));
    for s in &out {
        assert!(entity_passes(&filter, &memberships, &nodes, s.group_key));
        assert_eq!(s.year, 2030);
    }
}

#[test]
fn both_series_are_united_on_the_axis() {
    let (mappings, lengths) = two_period_tables();
    let second = vec![p(1, 2030, 1, 0, 4, 100, 1), p(9, 2030, 1, 0, 4, 50, 1)];
    let out = run_pipeline(
        &vec![row(1, 2030, 1, 1, 4, 6)],
        &mappings,
        &lengths,
        &vec![],
        &vec![],
        &HashMap::new(),
        &vec![],
        &second,
        2030,
        4,
        "avg",
        "both",
        true,
        false,
    )
    .unwrap();
    let seg = |g: u64, s: u64, e: u64, num: i64, den: u32| OutputSegment {
        group_key: g,
        year: 2030,
        global_start: s,
        global_end: e,
        value: r(num, den),
    };
    assert_eq!(out, vec![seg(1, 0, 4, 424, 4), seg(1, 4, 8, 24, 4), seg(9, 0, 4, 200, 4)]);
    let long = run_pipeline(
        &vec![row(1, 2030, 1, 1, 4, 6)],
        &mappings,
        &lengths,
        &vec![],
        &vec![],
        &HashMap::new(),
        &vec![],
        &second,
        2030,
        4,
        "sum",
        "long-term",
        true,
        false,
    )
    .unwrap();
    assert_eq!(long, vec![seg(1, 0, 4, 400, 1), seg(9, 0, 4, 200, 1)]);
}

#[test]
fn sums_that_do_not_fit_are_reported() {
    let (mappings, lengths) = two_period_tables();
    let out = run_pipeline(
        &vec![row(1, 2030, 2, 1, 3, i64::MAX)],
        &mappings,
        &lengths,
        &vec![],
        &vec![],
        &HashMap::new(),
        &vec![],
        &vec![],
        2030,
        4,
        "sum",
        "short-term",
        true,
        false,
    );
    assert_eq!(out, Err(EngineError::Overflow));
}

#[test]
fn a_block_without_timesteps_gives_no_value() {
    // The second block ends before it starts: it holds no interval.
    let blocks = vec![p(1, 2030, 7, 1, 2, 10, 1), p(1, 2030, 7, 4, 3, 99, 1)];
    let mappings = vec![mapping(2030, 7, 1, 1)];
    let lengths = vec![length(2030, 7, 1, 3)];
    let cuts = build_intervals(&blocks, &mappings);
    assert_eq!(cuts, vec![p(0, 2030, 1, 0, 2, 0, 1), p(0, 2030, 1, 2, 3, 0, 1)]);
    assert_eq!(
        assign_weighted(&blocks, &mappings, &lengths, &cuts),
        Some(vec![p(1, 2030, 1, 0, 2, 10, 1)])
    );
}

#[test]
fn a_single_timestep_is_a_block() {
    let blocks = vec![p(1, 2030, 7, 1, 1, 4, 1), p(1, 2030, 7, 2, 2, 6, 1)];
    let mappings = vec![mapping(2030, 7, 1, 1)];
    let lengths = vec![length(2030, 7, 3, 2)];
    let cuts = build_intervals(&blocks, &mappings);
    assert_eq!(
        assign_weighted(&blocks, &mappings, &lengths, &cuts),
        Some(vec![p(1, 2030, 1, 0, 3, 4, 3), p(1, 2030, 1, 3, 6, 6, 3)])
    );
}

#[test]
fn union_keeps_every_partition_of_both_series() {
    let first = vec![p(1, 1, 1, 0, 2, 1, 1), p(2, 1, 1, 0, 2, 1, 1)];
    let second = vec![p(2, 1, 1, 0, 2, 1, 1), p(3, 1, 1, 0, 2, 1, 1), p(1, 1, 2, 0, 2, 1, 1)];
    let out = combine(&first, &second).unwrap();
    for key in first.iter().chain(second.iter()) {
        assert!(out
            .iter()
            .any(|x| x.group == key.group && x.year == key.year && x.period == key.period));
    }
    for x in &out {
        assert!(first
            .iter()
            .chain(second.iter())
            .any(|k| x.group == k.group && x.year == k.year && x.period == k.period));
    }
}
