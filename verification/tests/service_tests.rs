use energy_model_visualizer::capacity::{
    capacity_query, CAPACITY_SQL, CAPACITY_SQL_WITH_BREAKDOWN, DECOMMISSION_STAND_IN,
    INVESTMENT_STAND_IN,
};
use energy_model_visualizer::import_export::{
    aggregate_flows_query, detailed_flows_query, EnergyFlowOptions, AGGREGATE_FLOW_SQL,
    DETAILED_FLOW_SQL, RESULT_INCOMPLETE_SQL,
};
use energy_model_visualizer::installed_capacity::{
    capacity_at_year_query, capacity_over_period_query,
};
use energy_model_visualizer::metadata::apply_carrier_filter;
use energy_model_visualizer::production_price::{
    production_price_query, EMPTY_SQL, PRODUCTION_DATA_COMPACT_SQL, PRODUCTION_DATA_SIMPLE_SQL,
};
use energy_model_visualizer::query_builder::{
    build_breakdown_case_conditions_on, build_breakdown_columns, build_breakdown_group_by,
    build_breakdown_joins, build_breakdown_selects, build_filter_conditions_on,
    build_resolution_query, build_resolution_query_both, build_resolution_query_with_filters,
    build_resolution_query_with_filters_and_breakdown, mode_name,
};
use energy_model_visualizer::pipeline::Selection;
use energy_model_visualizer::resample::{parse_aggregation, Aggregation};
use energy_model_visualizer::series::EngineError;
use energy_model_visualizer::residual_load::{
    supply_query, SUPPLY_SQL_WITHOUT_FILTERS, SUPPLY_SQL_WITH_FILTERS,
    SUPPLY_SQL_WITH_FILTERS_AND_BREAKDOWN,
};
use energy_model_visualizer::storage_price::{
    storage_price_query, storage_selection, EMPTY_LONG_TERM_SQL, EMPTY_SHORT_TERM_SQL, LONG_TERM_SQL, SHORT_TERM_SQL,
};
use energy_model_visualizer::system_cost::{
    fixed_asset_cost_query, fixed_flow_cost_query, unit_on_cost_query, variable_flow_cost_query,
    DISCOUNT_FACTOR_ASSETS_CTE, DISCOUNT_FACTOR_FLOWS_CTE, FIXED_ASSET_COST_SQL,
    FIXED_FLOW_COST_SQL, UNIT_ON_COST_SQL, UNIT_ON_COST_SQL_FALLBACK, VARIABLE_FLOW_COST_SQL,
};
use energy_model_visualizer::text::{chars_of, string_of, unterminate};
use energy_model_visualizer::transport_price::{require_rows, transport_dual_column, transportation_price_query};
use std::collections::HashMap;

fn trimmed(sql: String) -> String {
    sql.trim_end_matches(';').trim_end().to_string()
}

fn finish(text: String, grouper: &[i32], filters: &HashMap<i32, Vec<i32>>, metadata: bool) -> String {
    let text = text
        .replace("{breakdown_selects}", &build_breakdown_selects(grouper))
        .replace("{breakdown_group_by}", &build_breakdown_group_by(grouper))
        .replace("{breakdown_joins}", &build_breakdown_joins(grouper))
        .replace(
            "{breakdown_case_conditions}",
            &build_breakdown_case_conditions_on(grouper, "a.asset"),
        );
    if metadata {
        text.replace(
            "{filtered_assets}",
            &format!(
                "SELECT * FROM asset AS a WHERE 1 {}",
                build_filter_conditions_on(filters, "a.asset")
            ),
        )
    } else {
        text.replace("{filtered_assets}", "SELECT * FROM asset")
    }
}

fn some_filters() -> HashMap<i32, Vec<i32>> {
    let mut filters = HashMap::new();
    filters.insert(1, vec![2, 3]);
    filters
}

#[test]
fn unterminate_takes_semicolons_then_space() {
    let run = |text: &str| string_of(&unterminate(&chars_of(text)));
    for text in ["SELECT 1;", "SELECT 1 ;; \n", "SELECT 1; ", "a;b ;;;", "", ";;;", " \t\u{a0}", "x\u{3000};"] {
        assert_eq!(run(text), text.trim_end_matches(';').trim_end());
    }
    assert_eq!(run("SELECT 1 ;"), "SELECT 1");
    assert_eq!(run("SELECT 1; "), "SELECT 1;");
}

#[test]
fn storage_price_short_term() {
    let filters = some_filters();
    let plan = storage_price_query(true, false, 24, "short-term", "gas", &filters, &[], true).unwrap();
    assert_eq!(plan.year_arguments, 1);
    let pre = format!(" WITH storage_table AS ({})", apply_carrier_filter(SHORT_TERM_SQL, "gas"));
    let sql = trimmed(build_resolution_query("storage_table", "dual_value", &["asset"], Aggregation::Avg, 24, false));
    let wrapped = format!(
        "
    {}
    SELECT * FROM (
        {}
    ) AS subquery
    ",
        pre, sql
    );
    assert_eq!(plan.sql, finish(wrapped, &[], &filters, true));
    assert!(!plan.sql.contains("{breakdown"));
    assert!(!plan.sql.contains("{filtered_assets}"));
}

#[test]
fn storage_price_long_term_without_values() {
    let filters = HashMap::new();
    let grouper = [4, 5];
    let plan = storage_price_query(true, false, 1, "long-term", "all", &filters, &grouper, true).unwrap();
    assert_eq!(plan.year_arguments, 1);
    let pre = format!(" WITH storage_table AS ({})", EMPTY_LONG_TERM_SQL);
    let cols = build_breakdown_columns(&grouper);
    let col_refs: Vec<&str> = cols.iter().map(String::as_str).collect();
    let sql = trimmed(build_resolution_query("storage_table", "dual_value", &col_refs, Aggregation::Avg, 1, true));
    let wrapped = format!(
        "
    {}
    SELECT * FROM (
        {}
    ) AS subquery
    ",
        pre, sql
    );
    assert_eq!(plan.sql, finish(wrapped, &grouper, &filters, true));
}

#[test]
fn storage_price_both() {
    let filters = some_filters();
    let plan = storage_price_query(false, true, 168, "both", "power", &filters, &[9], false).unwrap();
    assert_eq!(plan.year_arguments, 2);
    let pre = format!(
        "
            WITH storage_table AS (
                {}
            ), storage_table_1 AS (
                {}
            )",
        EMPTY_SHORT_TERM_SQL,
        apply_carrier_filter(LONG_TERM_SQL, "power")
    );
    let sql = trimmed(build_resolution_query_both(
        "storage_table",
        "storage_table_1",
        "dual_value",
        &["asset"],
        Aggregation::Avg,
        168,
    ));
    let wrapped = format!(
        "
    {}
    SELECT * FROM (
        {}
    ) AS subquery
    ",
        pre, sql
    );
    assert_eq!(plan.sql, finish(wrapped, &[9], &filters, false));
}

#[test]
fn storage_price_refuses_other_types() {
    let filters = HashMap::new();
    for bad in ["", "short", "Both", "short-term ", "seasonal"] {
        assert_eq!(
            storage_price_query(true, true, 1, bad, "all", &filters, &[], false),
            Err("Invalid storage type".to_string())
        );
    }
}

#[test]
fn production_price_by_the_methods_that_are_there() {
    let filters = some_filters();
    let sql = trimmed(build_resolution_query("production_table", "dual_value", &["asset"], Aggregation::Avg, 3, false));
    let both = format!(
        "
                WITH production_table AS (
                    {}
                    UNION ALL
                    {}
                )
                SELECT * FROM (
                    {}
                ) AS subquery
                ",
        apply_carrier_filter(PRODUCTION_DATA_SIMPLE_SQL, "gas"),
        apply_carrier_filter(PRODUCTION_DATA_COMPACT_SQL, "gas"),
        sql
    );
    assert_eq!(
        production_price_query(true, true, 3, "gas", &filters, &[], true),
        finish(both, &[], &filters, true)
    );
    let one = |values: &str| {
        format!(
            "
                WITH production_table AS (
                    {}
                )
                SELECT * FROM (
                    {}
                ) AS subquery
                ",
            apply_carrier_filter(values, "gas"),
            sql
        )
    };
    assert_eq!(
        production_price_query(false, true, 3, "gas", &filters, &[], false),
        finish(one(PRODUCTION_DATA_COMPACT_SQL), &[], &filters, false)
    );
    assert_eq!(
        production_price_query(true, false, 3, "gas", &filters, &[], true),
        finish(one(PRODUCTION_DATA_SIMPLE_SQL), &[], &filters, true)
    );
    // With neither method the series is that of the stand-in: the same query on
    // values that are zero, with every placeholder filled.
    let stand_in = format!(
        "
                WITH production_table AS (
                    {}
                )
                SELECT * FROM (
                    {}
                ) AS subquery
                ",
        EMPTY_SQL,
        trimmed(build_resolution_query(
            "production_table",
            "dual_value",
            &["asset", "breakdown_7"],
            Aggregation::Avg,
            3,
            false
        ))
    );
    let neither = production_price_query(false, false, 3, "gas", &filters, &[7], true);
    assert_eq!(neither, finish(stand_in, &[7], &filters, true));
    assert!(neither.contains("0 AS dual_value"));
    assert!(neither.contains("simple.time_block_start,"));
    for placeholder in ["{breakdown", "{filtered_assets}", "{group_cols", "{agg}", "{period_length}"] {
        assert!(!neither.contains(placeholder), "{} is left in the query", placeholder);
    }
}

#[test]
fn supply_by_metadata_and_breakdown() {
    let filters = some_filters();
    assert_eq!(
        supply_query(24, &filters, &[5], false),
        build_resolution_query(SUPPLY_SQL_WITHOUT_FILTERS, "solution", &["asset"], Aggregation::Sum, 24, false)
    );
    assert_eq!(
        supply_query(24, &filters, &[], true),
        build_resolution_query_with_filters(
            SUPPLY_SQL_WITH_FILTERS,
            "solution",
            &["asset"],
            Aggregation::Sum,
            24,
            &filters
        )
    );
    assert_eq!(
        supply_query(4294967295, &filters, &[5, 6], true),
        build_resolution_query_with_filters_and_breakdown(
            SUPPLY_SQL_WITH_FILTERS_AND_BREAKDOWN,
            "solution",
            &build_breakdown_columns(&[5, 6]),
            Aggregation::Sum,
            4294967295,
            &filters,
            &[5, 6]
        )
    );
    assert!(!supply_query(24, &filters, &[5], true).contains("{breakdown"));
}

#[test]
fn capacity_query_reads_missing_solutions_as_absent() {
    let empty = HashMap::new();
    let filters = some_filters();
    assert_eq!(capacity_query(&empty, &[], true, true, true), CAPACITY_SQL);
    assert_eq!(capacity_query(&filters, &[1], false, true, true), CAPACITY_SQL);
    let expected = |filters: &HashMap<i32, Vec<i32>>, grouper: &[i32]| {
        let conditions = if filters.is_empty() {
            String::new()
        } else {
            build_filter_conditions_on(filters, "af.asset")
        };
        CAPACITY_SQL_WITH_BREAKDOWN
            .replace(
                "{breakdown_case_conditions}",
                &build_breakdown_case_conditions_on(grouper, "bc.asset"),
            )
            .replace("{breakdown_selects}", &build_breakdown_selects(grouper))
            .replace("{breakdown_joins}", &build_breakdown_joins(grouper))
            .replace("{filter_conditions}", &conditions)
            .replace("{breakdown_group_by}", &build_breakdown_group_by(grouper))
    };
    assert_eq!(capacity_query(&filters, &[], true, true, true), expected(&filters, &[]));
    assert_eq!(capacity_query(&empty, &[2, 3], true, true, true), expected(&empty, &[2, 3]));
    assert_eq!(capacity_query(&filters, &[2], true, true, true), expected(&filters, &[2]));
    // A table without the solution is read through its stand-in; no statement
    // changes the dataset.
    assert_eq!(
        capacity_query(&empty, &[], true, false, true),
        CAPACITY_SQL.replace("var_assets_investment", INVESTMENT_STAND_IN)
    );
    assert_eq!(
        capacity_query(&empty, &[], false, true, false),
        CAPACITY_SQL.replace("var_assets_decommission", DECOMMISSION_STAND_IN)
    );
    let neither = capacity_query(&filters, &[2], true, false, false);
    assert_eq!(
        neither,
        expected(&filters, &[2])
            .replace("var_assets_investment", INVESTMENT_STAND_IN)
            .replace("var_assets_decommission", DECOMMISSION_STAND_IN)
    );
    for sql in [&neither, &capacity_query(&empty, &[], true, false, false)] {
        assert!(!sql.contains("ALTER") && !sql.contains("INSERT") && !sql.contains("UPDATE"));
        assert!(!sql.contains("FROM var_assets_investment\n"));
        assert!(sql.contains("CAST(NULL AS DOUBLE) AS solution FROM var_assets_investment)"));
    }
}

#[test]
fn transport_price_query() {
    assert_eq!(transport_dual_column("max"), "dual_max_transport_flow_limit_simple_method");
    let sql = trimmed(build_resolution_query("transportation_table", "dual_value", &["carrier"], Aggregation::Avg, 12, false));
    let pre = |carrier_filter: &str| {
        format!(
            "
        SELECT 
            f.carrier,
            tr.year,
            tr.rep_period,
            tr.time_block_start,
            tr.time_block_end,
            dual_{}_transport_flow_limit_simple_method AS dual_value
        FROM cons_transport_flow_limit_simple_method AS tr
        JOIN flow AS f ON f.from_asset = tr.from_asset AND f.to_asset = tr.to_asset
        {}
    ",
            "min", carrier_filter
        )
    };
    let wrap = |pre: String| {
        format!(
            "
    WITH transportation_table AS (
    {}
    )
    SELECT * FROM (
        {}
    ) AS subquery
    ",
            pre, sql
        )
    };
    assert_eq!(transportation_price_query(true, "all", 12, "min"), wrap(pre("")));
    assert_eq!(
        transportation_price_query(true, "gas", 12, "min"),
        wrap(pre("WHERE f.carrier = 'gas'"))
    );
    // Without the dual values the series is computed on zeros, on the same blocks.
    assert_eq!(
        transportation_price_query(false, "gas", 12, "min"),
        wrap(pre("WHERE f.carrier = 'gas'"))
            .replace("dual_min_transport_flow_limit_simple_method AS dual_value", "0 AS dual_value")
    );
}

#[test]
fn system_cost_queries() {
    let filters = some_filters();
    let expected = |template: &str, grouper: &[i32], metadata: bool| {
        let sql = template
            .replace("{discount_factor_assets_cte}", DISCOUNT_FACTOR_ASSETS_CTE)
            .replace("{breakdown_joins}", &build_breakdown_joins(grouper))
            .replace(
                "{breakdown_case_conditions}",
                &build_breakdown_case_conditions_on(grouper, "a.asset"),
            );
        if metadata {
            sql.replace(
                "{filtered_assets}",
                &format!(
                    "SELECT * FROM asset AS a WHERE 1 {}",
                    build_filter_conditions_on(&filters, "a.asset")
                ),
            )
        } else {
            sql.replace("{filtered_assets}", "SELECT * FROM asset")
        }
    };
    assert_eq!(fixed_asset_cost_query(&filters, &[3], true), expected(FIXED_ASSET_COST_SQL, &[3], true));
    assert_eq!(fixed_asset_cost_query(&filters, &[], false), expected(FIXED_ASSET_COST_SQL, &[], false));
    assert_eq!(unit_on_cost_query(true, &filters, &[3], true), expected(UNIT_ON_COST_SQL, &[3], true));
    assert_eq!(unit_on_cost_query(false, &filters, &[3], true), UNIT_ON_COST_SQL_FALLBACK);
    assert_eq!(
        fixed_flow_cost_query(),
        format!("{DISCOUNT_FACTOR_FLOWS_CTE}{FIXED_FLOW_COST_SQL}")
    );
    assert_eq!(
        variable_flow_cost_query(),
        format!("{DISCOUNT_FACTOR_FLOWS_CTE}{VARIABLE_FLOW_COST_SQL}")
    );
}

#[test]
fn flow_queries_and_arguments() {
    assert_eq!(aggregate_flows_query(), RESULT_INCOMPLETE_SQL.to_string() + AGGREGATE_FLOW_SQL);
    assert_eq!(detailed_flows_query(), RESULT_INCOMPLETE_SQL.to_string() + DETAILED_FLOW_SQL);
    assert_eq!(EnergyFlowOptions { level: 2, year: 2030 }.arguments(), vec![2, 2030]);
}

#[test]
fn installed_capacity_over_a_period() {
    for (asset, start_year, end_year) in [("wind_farm", 2030, 2050), ("{end_year}", -5, 0), ("", 2030, 2030)] {
        let expected = format!(r#"
    WITH years AS (
    SELECT generate_series AS year FROM generate_series({start_year}, {end_year})
    ),
    cum_inv AS (
    SELECT milestone_year, solution
        FROM var_assets_investment
    WHERE asset = '{asset}'
    ),
    cum_dec AS (
    SELECT milestone_year, solution
        FROM var_assets_decommission
    WHERE asset = '{asset}'
    ),
    asset_init AS (
    SELECT initial_units, commission_year FROM asset_both WHERE asset = '{asset}'
    ),
    asset_cap AS (
    SELECT capacity FROM asset WHERE asset = '{asset}'
    )
    SELECT
    y.year,
    (ai.initial_units
    + COALESCE((SELECT SUM(solution) FROM cum_inv iv WHERE iv.milestone_year <= y.year), 0)
    - COALESCE((SELECT SUM(solution) FROM cum_dec dc WHERE dc.milestone_year <= y.year), 0))
    * ac.capacity AS installed_capacity
    FROM years y, asset_init ai, asset_cap ac
    WHERE ai.commission_year <= y.year
    ORDER BY y.year;
    "#);
        assert_eq!(capacity_over_period_query(asset, start_year, end_year), expected);
    }
    let sql = capacity_over_period_query("ccgt", 2030, 2040);
    assert!(sql.contains("FROM generate_series(2030, 2040)"));
    assert_eq!(sql.matches("WHERE asset = 'ccgt'").count(), 4);
}

#[test]
fn installed_capacity_at_a_year() {
    for (asset, year) in [("wind_farm", 2030), ("{year}", i32::MIN), ("o'neill", i32::MAX)] {
        let expected = format!(r#"
    WITH cum_inv AS (
    SELECT COALESCE(SUM(solution), 0) AS total_invest
        FROM var_assets_investment
    WHERE asset = '{asset}' AND milestone_year <= {year}
    ), cum_dec AS (
    SELECT COALESCE(SUM(solution), 0) AS total_decomm
        FROM var_assets_decommission
    WHERE asset = '{asset}' AND milestone_year <= {year}
    )
    SELECT
    a.asset,
    (a.initial_units + ci.total_invest - cd.total_decomm) * m.capacity AS installed_capacity
    FROM asset_both a
    JOIN asset m ON a.asset = m.asset,
        cum_inv ci,
        cum_dec cd
    WHERE a.asset = '{asset}' AND a.commission_year <= {year};
    "#);
        assert_eq!(capacity_at_year_query(asset, year), expected);
    }
    let sql = capacity_at_year_query("ccgt", 2035);
    assert_eq!(sql.matches("milestone_year <= 2035").count(), 2);
    assert!(sql.contains("WHERE a.asset = 'ccgt' AND a.commission_year <= 2035;"));
}

#[test]
fn transport_price_without_rows_is_an_error() {
    assert_eq!(require_rows(1, "data/model.duckdb", 2030), Ok(()));
    assert_eq!(require_rows(usize::MAX, "", 0), Ok(()));
    assert_eq!(
        require_rows(0, "data/model.duckdb", 2030),
        Err("Error: no data (dataset 'data/model.duckdb', year 2030)".to_string())
    );
    assert_eq!(
        require_rows(0, "data/model.duckdb", 2030),
        Err(EngineError::NoData.message("data/model.duckdb", 2030))
    );
}

#[test]
fn errors_are_worded_with_dataset_and_year() {
    assert_eq!(
        EngineError::UnknownMode.message("a.duckdb", 2050),
        "Error: the aggregation is neither sum nor avg (dataset 'a.duckdb', year 2050)"
    );
    assert_eq!(
        EngineError::UnknownSelection.message("a.duckdb", 0),
        "Error: the selection of the series is not known (dataset 'a.duckdb', year 0)"
    );
    assert_eq!(
        EngineError::ZeroWidth.message("", u32::MAX),
        "Error: the resolution is zero hours (dataset '', year 4294967295)"
    );
    assert_eq!(
        EngineError::Overflow.message("b", 1),
        "Error: a number does not fit (dataset 'b', year 1)"
    );
}

#[test]
fn storage_type_is_read_before_the_dataset_is_asked() {
    assert_eq!(storage_selection("short-term"), Ok(Selection::ShortTerm));
    assert_eq!(storage_selection("long-term"), Ok(Selection::LongTerm));
    assert_eq!(storage_selection("both"), Ok(Selection::Both));
    assert_eq!(storage_selection("Both"), Err("Invalid storage type".to_string()));
    assert_eq!(storage_selection(""), Err("Invalid storage type".to_string()));
}

#[test]
fn a_mode_is_sum_or_avg_and_nothing_else() {
    assert_eq!(parse_aggregation("sum"), Ok(Aggregation::Sum));
    assert_eq!(parse_aggregation("avg"), Ok(Aggregation::Avg));
    assert_eq!(parse_aggregation("median"), Err(EngineError::UnknownMode));
    assert_eq!(mode_name(Aggregation::Sum), "sum");
    assert_eq!(mode_name(Aggregation::Avg), "avg");
    let sum = build_resolution_query("t", "v", &["asset"], Aggregation::Sum, 3, false);
    let avg = build_resolution_query("t", "v", &["asset"], Aggregation::Avg, 3, false);
    assert!(sum.contains("CASE WHEN 'sum' = 'avg'"));
    assert!(avg.contains("CASE WHEN 'avg' = 'avg'"));
    assert_eq!(sum.replace("'sum' = 'avg'", "'avg' = 'avg'"), avg);
    // The windows are cut and given in hours.
    assert!(sum.contains("GREATEST(e.global_start, p.period * 3) AS period_start"));
    assert!(sum.contains("LEAST(e.global_end, (p.period + 1) * 3) AS period_end"));
    assert!(sum.contains("window_start AS global_start_val"));
}
