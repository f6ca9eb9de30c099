use energy_model_visualizer::compaction::compact;
use energy_model_visualizer::intervals::build_intervals;
use energy_model_visualizer::model::{
    to_pieces, CategoryNode, Membership, OutputSegment, PeriodLength, PeriodMapping, TimeBlockRow,
};
use energy_model_visualizer::pipeline::{build_local_series, run_pipeline, select_series, Selection};
use energy_model_visualizer::ratio::Ratio;
use energy_model_visualizer::series::{EngineError, Piece};
use energy_model_visualizer::weighting::place_periods;
use std::collections::HashMap;

fn row(entity_key: u64, year: u32, rep_period: u32, start: u32, end: u32, value: i64) -> TimeBlockRow {
    TimeBlockRow { entity_key, year, rep_period, block_start: start, block_end: end, value }
}

fn piece(group: u64, year: u32, period: u64, start: u64, end: u64, num: i64, den: u32) -> Piece {
    Piece { group, year, period, start, end, value: Ratio { num, den } }
}

fn segment(group_key: u64, year: u32, start: u64, end: u64, num: i64, den: u32) -> OutputSegment {
    OutputSegment { group_key, year, global_start: start, global_end: end, value: Ratio { num, den } }
}

fn scenario_rows() -> Vec<TimeBlockRow> {
    vec![row(1, 2030, 1, 1, 2, 10), row(1, 2030, 1, 3, 3, 20)]
}

fn scenario_mappings() -> Vec<PeriodMapping> {
    vec![PeriodMapping { year: 2030, rep_period: 1, period: 1, weight: 2 }]
}

fn scenario_lengths() -> Vec<PeriodLength> {
    vec![PeriodLength { year: 2030, rep_period: 1, resolution_hours: 1, timestep_count: 3 }]
}

fn run_scenario(width: u64, agg: &str) -> Result<Vec<OutputSegment>, EngineError> {
    run_pipeline(
        &scenario_rows(),
        &scenario_mappings(),
        &scenario_lengths(),
        &vec![],
        &vec![],
        &HashMap::new(),
        &vec![],
        &vec![],
        2030,
        width,
        agg,
        "short-term",
        true,
        false,
    )
}

#[test]
fn scenario_intervals_are_cut_at_block_ends() {
    let blocks = compact(&to_pieces(&scenario_rows()));
    let cuts = build_intervals(&blocks, &scenario_mappings());
    assert_eq!(cuts, vec![piece(0, 2030, 1, 0, 2, 0, 1), piece(0, 2030, 1, 2, 3, 0, 1)]);
}

#[test]
fn scenario_weighted_values() {
    let local =
        build_local_series(&to_pieces(&scenario_rows()), &scenario_mappings(), &scenario_lengths());
    assert_eq!(
        local,
        Some(vec![piece(1, 2030, 1, 0, 2, 20, 1), piece(1, 2030, 1, 2, 3, 40, 1)])
    );
}

#[test]
fn scenario_global_axis() {
    let local =
        build_local_series(&to_pieces(&scenario_rows()), &scenario_mappings(), &scenario_lengths())
            .unwrap();
    assert_eq!(
        select_series(
            &local,
            &vec![],
            Selection::ShortTerm,
            &place_periods(&scenario_mappings(), &scenario_lengths())
        ),
        Some(vec![piece(1, 2030, 1, 0, 2, 20, 1), piece(1, 2030, 1, 2, 3, 40, 1)])
    );
}

#[test]
fn scenario_sum_over_one_window() {
    assert_eq!(run_scenario(3, "sum"), Ok(vec![segment(1, 2030, 0, 3, 80, 1)]));
}

#[test]
fn scenario_average_over_one_window() {
    let out = run_scenario(3, "avg").unwrap();
    assert_eq!(out, vec![segment(1, 2030, 0, 3, 80, 3)]);
    let value = out[0].value.num as f64 / out[0].value.den as f64;
    assert!((value - 26.667).abs() < 0.001);
}

#[test]
fn scenario_at_native_width_keeps_the_series() {
    assert_eq!(
        run_scenario(1, "avg"),
        Ok(vec![segment(1, 2030, 0, 2, 20, 1), segment(1, 2030, 2, 3, 40, 1)])
    );
    assert_eq!(
        run_scenario(1, "sum"),
        Ok(vec![segment(1, 2030, 0, 2, 20, 1), segment(1, 2030, 2, 3, 40, 1)])
    );
}

#[test]
fn invalid_parameters_are_refused() {
    assert_eq!(run_scenario(3, "max"), Err(EngineError::UnknownMode));
    assert_eq!(run_scenario(0, "sum"), Err(EngineError::ZeroWidth));
    assert_eq!(run_scenario(0, "median"), Err(EngineError::UnknownMode));
    let out = run_pipeline(
        &scenario_rows(),
        &scenario_mappings(),
        &scenario_lengths(),
        &vec![],
        &vec![],
        &HashMap::new(),
        &vec![],
        &vec![],
        2030,
        0,
        "sum",
        "medium-term",
        true,
        false,
    );
    assert_eq!(out, Err(EngineError::UnknownSelection));
}

#[test]
fn year_without_rows_gives_empty_answer() {
    let out = run_pipeline(
        &scenario_rows(),
        &scenario_mappings(),
        &scenario_lengths(),
        &vec![],
        &vec![],
        &HashMap::new(),
        &vec![],
        &vec![],
        2040,
        3,
        "sum",
        "short-term",
        true,
        false,
    );
    assert_eq!(out, Ok(vec![]));
    let required = run_pipeline(
        &scenario_rows(),
        &scenario_mappings(),
        &scenario_lengths(),
        &vec![],
        &vec![],
        &HashMap::new(),
        &vec![],
        &vec![],
        2040,
        3,
        "sum",
        "short-term",
        true,
        true,
    );
    assert_eq!(required, Err(EngineError::NoData));
}

#[test]
fn missing_values_give_a_zero_series_of_the_same_shape() {
    let out = run_pipeline(
        &scenario_rows(),
        &scenario_mappings(),
        &scenario_lengths(),
        &vec![],
        &vec![],
        &HashMap::new(),
        &vec![],
        &vec![],
        2030,
        3,
        "sum",
        "short-term",
        false,
        false,
    );
    assert_eq!(out, Ok(vec![segment(1, 2030, 0, 3, 0, 1)]));
}

fn node(id: i32, name: &str, parent_id: Option<i32>, level: u32) -> CategoryNode {
    CategoryNode { id, name: name.to_string(), parent_id, level }
}

// Root 1 with the leaves 2 and 3; entity 1 hangs at 2, entity 2 at 3, entity 3 nowhere.
fn small_tree() -> (Vec<CategoryNode>, Vec<Membership>) {
    (
        vec![node(1, "technology", None, 1), node(2, "wind", Some(1), 0), node(3, "solar", Some(1), 0)],
        vec![
            Membership { entity_key: 1, root_id: 1, leaf_id: 2 },
            Membership { entity_key: 2, root_id: 1, leaf_id: 3 },
        ],
    )
}

fn three_entities() -> Vec<TimeBlockRow> {
    vec![
        row(1, 2030, 1, 1, 3, 10),
        row(2, 2030, 1, 1, 3, 20),
        row(3, 2030, 1, 1, 3, 30),
    ]
}

#[test]
fn filter_keeps_only_entities_under_an_allowed_node() {
    let (nodes, memberships) = small_tree();
    let mut filter = HashMap::new();
    filter.insert(1, vec![2]);
    let out = run_pipeline(
        &three_entities(),
        &scenario_mappings(),
        &scenario_lengths(),
        &memberships,
        &nodes,
        &filter,
        &vec![],
        &vec![],
        2030,
        3,
        "sum",
        "short-term",
        true,
        false,
    );
    assert_eq!(out, Ok(vec![segment(1, 2030, 0, 3, 60, 1)]));
}

#[test]
fn breakdown_sums_the_entities_of_a_bucket() {
    let (nodes, memberships) = small_tree();
    let out = run_pipeline(
        &three_entities(),
        &scenario_mappings(),
        &scenario_lengths(),
        &memberships,
        &nodes,
        &HashMap::new(),
        &vec![1],
        &vec![],
        2030,
        3,
        "sum",
        "short-term",
        true,
        false,
    );
    // Bucket 0 holds the entities 1 and 2, bucket 1 the others: (10 + 20) * 2 * 3 and 30 * 2 * 3.
    assert_eq!(out, Ok(vec![segment(0, 2030, 0, 3, 180, 1), segment(1, 2030, 0, 3, 180, 1)]));
    let raw = run_pipeline(
        &three_entities(),
        &scenario_mappings(),
        &scenario_lengths(),
        &memberships,
        &nodes,
        &HashMap::new(),
        &vec![],
        &vec![],
        2030,
        3,
        "sum",
        "short-term",
        true,
        false,
    )
    .unwrap();
    let total_raw: i64 = raw.iter().map(|s| s.value.num).sum();
    let total_buckets: i64 = out.unwrap().iter().map(|s| s.value.num).sum();
    assert_eq!(total_raw, total_buckets);
}

// A small generator of numbers that looks random and is the same on every run.
struct Numbers(u64);

impl Numbers {
    fn next(&mut self, below: u64) -> u64 {
        self.0 = self.0.wrapping_mul(6364136223846793005).wrapping_add(1442695040888963407);
        (self.0 >> 33) % below
    }
}

// The value of a series at one hour of one group, as a fraction; zero where no segment is.
fn value_at(out: &[OutputSegment], group: u64, hour: u64) -> (i128, i128) {
    for s in out {
        if s.group_key == group && s.global_start <= hour && hour < s.global_end {
            return (s.value.num as i128, s.value.den as i128);
        }
    }
    (0, 1)
}

fn add(a: (i128, i128), b: (i128, i128)) -> (i128, i128) {
    (a.0 * b.1 + b.0 * a.1, a.1 * b.1)
}

#[test]
fn buckets_hold_what_their_entities_hold() {
    let mut numbers = Numbers(7);
    for _ in 0..40 {
        // Every entity has the same blocks; the values differ.
        let periods = 1 + numbers.next(3) as u32;
        let steps = 2 + numbers.next(5) as u32;
        let hours = 1 + numbers.next(3) as u32;
        let mut cuts = vec![0u32];
        while *cuts.last().unwrap() < steps {
            let last = *cuts.last().unwrap();
            cuts.push((last + 1 + numbers.next(3) as u32).min(steps));
        }
        let entities = 2 + numbers.next(4);
        let mut rows = Vec::new();
        let mut memberships = Vec::new();
        for entity in 1..=entities {
            memberships.push(Membership {
                entity_key: entity,
                root_id: 1,
                leaf_id: 2 + numbers.next(3) as i32,
            });
            for rep in 1..=periods {
                for w in cuts.windows(2) {
                    rows.push(row(entity, 2030, rep, w[0] + 1, w[1], numbers.next(4) as i64));
                }
            }
        }
        let nodes = vec![
            node(1, "all", None, 1),
            node(2, "a", Some(1), 0),
            node(3, "b", Some(1), 0),
            node(4, "c", Some(1), 0),
        ];
        let mappings: Vec<PeriodMapping> = (1..=periods)
            .map(|rep| PeriodMapping { year: 2030, rep_period: rep, period: rep, weight: 1 + rep })
            .collect();
        let lengths: Vec<PeriodLength> = (1..=periods)
            .map(|rep| PeriodLength {
                year: 2030,
                rep_period: rep,
                resolution_hours: hours,
                timestep_count: steps,
            })
            .collect();
        let width = 1 + numbers.next(5);
        let run = |breakdown: &Vec<i32>| {
            run_pipeline(
                &rows,
                &mappings,
                &lengths,
                &memberships,
                &nodes,
                &HashMap::new(),
                breakdown,
                &vec![],
                2030,
                width,
                "sum",
                "short-term",
                true,
                false,
            )
            .unwrap()
        };
        let by_entity = run(&vec![]);
        let by_bucket = run(&vec![2, 3]);
        let horizon = (periods * steps * hours) as u64;
        for hour in 0..horizon {
            let mut raw = (0, 1);
            for entity in 1..=entities {
                raw = add(raw, value_at(&by_entity, entity, hour));
            }
            let mut buckets = (0, 1);
            for bucket in 0..=2 {
                buckets = add(buckets, value_at(&by_bucket, bucket, hour));
            }
            assert_eq!(raw.0 * buckets.1, buckets.0 * raw.1);
        }
        // Each group is covered from hour zero to the horizon without gap, and no two
        // neighbours have the same value.
        for out in [&by_entity, &by_bucket] {
            for w in out.windows(2) {
                if w[0].group_key == w[1].group_key {
                    assert_eq!(w[0].global_end, w[1].global_start);
                    assert!(!w[0].value.equals(&w[1].value));
                } else {
                    assert!(w[0].group_key < w[1].group_key);
                    assert_eq!(w[0].global_end, horizon);
                    assert_eq!(w[1].global_start, 0);
                }
            }
            assert_eq!(out[0].global_start, 0);
            assert_eq!(out[out.len() - 1].global_end, horizon);
        }
    }
}

#[test]
fn a_bucket_of_entities_with_different_blocks_does_not_fill_its_period() {
    // Both entities fall into bucket 0. Their blocks differ, so the blocks of the
    // bucket overlap: the bucket is outside what conservation is stated for.
    let (nodes, memberships) = small_tree();
    let rows = vec![row(1, 2030, 1, 1, 2, 5), row(1, 2030, 1, 3, 3, 7), row(2, 2030, 1, 1, 3, 5)];
    let mappings = vec![PeriodMapping { year: 2030, rep_period: 1, period: 1, weight: 1 }];
    let run = |breakdown: &Vec<i32>| {
        run_pipeline(
            &rows,
            &mappings,
            &scenario_lengths(),
            &memberships,
            &nodes,
            &HashMap::new(),
            breakdown,
            &vec![],
            2030,
            3,
            "sum",
            "short-term",
            true,
            false,
        )
    };
    assert_eq!(
        run(&vec![]),
        Ok(vec![segment(1, 2030, 0, 3, 17, 1), segment(2, 2030, 0, 3, 15, 1)])
    );
    assert_eq!(run(&vec![1]), Ok(vec![segment(0, 2030, 0, 3, 15, 1)]));
}
