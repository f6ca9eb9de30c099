use energy_model_visualizer::connection::QueryEvent;
use energy_model_visualizer::metadata::{
    apply_carrier_filter, check_column_in_table, column_in_table, table_info_query,
    INFER_CARRIER_SQL_FROM_OUTGOING_FLOWS,
};
use energy_model_visualizer::query_builder::{
    build_breakdown_case_conditions, build_breakdown_case_conditions_on, build_breakdown_columns,
    build_breakdown_group_by, build_breakdown_joins, build_breakdown_selects,
    build_filter_conditions, build_filter_conditions_on, build_resolution_query,
    build_resolution_query_both, build_resolution_query_with_filters,
    build_resolution_query_with_filters_and_breakdown, BOTH_RESOLUTIONS_SQL,
    CLUSTERED_YEAR_RESOLUTION_SQL, LAST_PART_SQL, REP_PERIOD_RESOLUTION_SQL,
};
use energy_model_visualizer::resample::Aggregation;
use energy_model_visualizer::sorting::sorted_keys;
use energy_model_visualizer::text::{chars_of, string_of, substitute};
use std::collections::HashMap;

fn fill_all(template: String, cols: &[&str], value_col: &str, source: &str, agg: &str, res: &str) -> String {
    let comparisons =
        cols.iter().map(|c| format!("d.{} = f.{}", c, c)).collect::<Vec<_>>().join(" AND ");
    template
        .replace("{group_cols}", &cols.join(", "))
        .replace("{group_cols_comparisons}", &comparisons)
        .replace("{value_col}", value_col)
        .replace("{source_table}", source)
        .replace("{agg}", agg)
        .replace("{period_length}", res)
}

#[test]
fn substitute_replaces_from_the_left_without_overlap() {
    let run = |text: &str, pattern: &str, with: &str| {
        string_of(&substitute(&chars_of(text), &chars_of(pattern), &chars_of(with)))
    };
    assert_eq!(run("aaa", "aa", "b"), "ba");
    assert_eq!(run("abcabc", "bc", "X"), "aXaX");
    assert_eq!(run("abc", "d", "X"), "abc");
    assert_eq!(run("", "d", "X"), "");
    assert_eq!(run("ab", "abc", "X"), "ab");
    assert_eq!(run("{a}{b}", "{a}", "{b}"), "{b}{b}");
    assert_eq!(run("é{x}ü", "{x}", "ß"), "éßü");
    assert_eq!(run("abc", "", "X"), "abc");
    for (text, pattern, with) in [("a.b.c", ".", ", "), ("xxxx", "xx", "x"), ("hello", "l", "")] {
        assert_eq!(run(text, pattern, with), text.replace(pattern, with));
    }
}

#[test]
fn resolution_query_on_representative_periods() {
    let sql = build_resolution_query("tbl", "val", &["asset", "carrier"], Aggregation::Avg, 24, false);
    let template =
        REP_PERIOD_RESOLUTION_SQL.to_string() + &LAST_PART_SQL.replace("{final}", "final_rep_periods");
    assert_eq!(sql, fill_all(template, &["asset", "carrier"], "val", "tbl", "avg", "24"));
    assert!(sql.contains("PARTITION BY asset, carrier, year, rep_period ORDER BY time_block_start"));
    assert!(sql.contains("WHERE d.asset = f.asset AND d.carrier = f.carrier"));
    assert!(sql.contains("FLOOR(global_start / 24) AS first_period"));
    assert!(sql.contains("CASE WHEN 'avg' = 'avg'"));
    assert!(sql.contains("FROM tbl"));
    assert!(!sql.contains('{'));
    assert!(sql.ends_with("ORDER BY asset, carrier, milestone_year, global_start;"));
}

#[test]
fn resolution_query_on_the_clustered_year() {
    let sql = build_resolution_query("tbl", "val", &["asset"], Aggregation::Sum, 168, true);
    let template = "WITH ".to_string()
        + CLUSTERED_YEAR_RESOLUTION_SQL
        + &LAST_PART_SQL.replace("{final}", "final_clustered");
    assert_eq!(sql, fill_all(template, &["asset"], "val", "tbl", "sum", "168"));
    assert!(sql.starts_with("WITH \n"));
    assert!(sql.contains("FROM final_clustered"));
    assert!(!sql.contains("final_rep_periods"));
}

#[test]
fn resolution_query_on_both_series() {
    let sql = build_resolution_query_both("short", "long", "val", &["asset"], Aggregation::Avg, 1);
    let template = REP_PERIOD_RESOLUTION_SQL.to_string()
        + &CLUSTERED_YEAR_RESOLUTION_SQL.replace("{source_table}", "{source_table_1}")
        + BOTH_RESOLUTIONS_SQL
        + &LAST_PART_SQL.replace("{final}", "final");
    let expected = fill_all(template, &["asset"], "val", "short", "avg", "{period_length}")
        .replace("{source_table_1}", "long")
        .replace("{period_length}", "1");
    assert_eq!(sql, expected);
    assert!(sql.contains("FROM short"));
    assert!(sql.contains("FROM long,"));
    assert!(!sql.contains('{'));
}

#[test]
fn no_group_column_gives_empty_lists() {
    let sql = build_resolution_query("t", "v", &[], Aggregation::Avg, 1, false);
    assert!(sql.contains("PARTITION BY , year, rep_period ORDER BY"));
    assert!(sql.contains("WHERE \n      AND d.milestone_year"));
}

fn one_condition(root: i32, ids: &str) -> String {
    let desc_cte = format!(
        "WITH RECURSIVE sub{0} AS (  
                SELECT id FROM category WHERE id IN ({1})  
              UNION ALL  
                SELECT c.id FROM category c JOIN sub{0} s ON c.parent_id = s.id
            )",
        root, ids
    );
    format!(
        "EXISTS (
                {desc_cte}
                SELECT 1
                FROM asset_category ac{0}
                WHERE ac{0}.asset = f.from_asset
                  AND ac{0}.root_id = {0}
                  AND ac{0}.leaf_id IN (SELECT id FROM sub{0})
            )",
        root,
        desc_cte = desc_cte.replace("\n", " ")
    )
}

#[test]
fn filter_conditions_by_increasing_root() {
    let mut filters: HashMap<i32, Vec<i32>> = HashMap::new();
    assert_eq!(build_filter_conditions(&filters), "");
    // A root without allowed nodes lets no row through.
    filters.insert(7, vec![]);
    assert_eq!(build_filter_conditions(&filters), "AND FALSE");
    filters.insert(3, vec![10, -2, 5]);
    assert_eq!(
        build_filter_conditions(&filters),
        format!("AND {} AND FALSE", one_condition(3, "10, -2, 5"))
    );
    filters.insert(-1, vec![4]);
    filters.insert(12, vec![0]);
    assert_eq!(sorted_keys(&filters), vec![-1, 3, 7, 12]);
    assert_eq!(
        build_filter_conditions(&filters),
        format!(
            "AND {} AND {} AND FALSE AND {}",
            one_condition(-1, "4"),
            one_condition(3, "10, -2, 5"),
            one_condition(12, "0")
        )
    );
    assert_eq!(
        build_filter_conditions_on(&filters, "a.asset"),
        build_filter_conditions(&filters).replace("f.from_asset", "a.asset")
    );
}

#[test]
fn filtered_query_fills_the_conditions_of_the_source() {
    let mut filters: HashMap<i32, Vec<i32>> = HashMap::new();
    filters.insert(2, vec![8, 9]);
    let source = "(SELECT * FROM f WHERE 1 {filter_conditions}) AS s";
    let sql = build_resolution_query_with_filters(source, "v", &["asset"], Aggregation::Sum, 6, &filters);
    let plain = build_resolution_query(source, "v", &["asset"], Aggregation::Sum, 6, false);
    assert_eq!(sql, plain.replace("{filter_conditions}", &build_filter_conditions(&filters)));
    assert!(sql.contains("WHERE id IN (8, 9)"));
    assert!(sql.contains("ac2.root_id = 2"));
    assert!(!sql.contains("{filter_conditions}"));
}

#[test]
fn breakdown_parts() {
    assert_eq!(build_breakdown_joins(&[]), "");
    assert_eq!(build_breakdown_joins(&[4]), "LEFT JOIN category c4 ON c4.id = 4");
    assert_eq!(
        build_breakdown_joins(&[4, -7]),
        "LEFT JOIN category c4 ON c4.id = 4\n    LEFT JOIN category c-7 ON c-7.id = -7"
    );
    assert_eq!(build_breakdown_selects(&[]), "");
    assert_eq!(
        build_breakdown_selects(&[1, 20]),
        ",\n      c1.name AS breakdown_1,\n      c20.name AS breakdown_20"
    );
    assert_eq!(build_breakdown_group_by(&[]), "");
    assert_eq!(build_breakdown_group_by(&[1, 20]), ",\n      c1.name,\n      c20.name");
    assert_eq!(
        build_breakdown_columns(&[3, 2147483647, -2147483648, 0]),
        vec!["asset", "breakdown_3", "breakdown_2147483647", "breakdown_-2147483648", "breakdown_0"]
    );
    assert_eq!(build_breakdown_columns(&[]), vec!["asset"]);
}

#[test]
fn breakdown_case_conditions() {
    assert_eq!(build_breakdown_case_conditions(&[]), "bf.from_asset");
    assert_eq!(build_breakdown_case_conditions_on(&[], "a.asset"), "a.asset");
    let one = |node_id: i32| {
        format!(
            "WHEN EXISTS (
                WITH RECURSIVE descendants_{0} AS (
                    SELECT id FROM category WHERE id = {0}
                    UNION ALL
                    SELECT c.id FROM category c 
                    JOIN descendants_{0} d ON c.parent_id = d.id
                )
                SELECT 1 FROM asset_category ac_{0}
                WHERE ac_{0}.asset = bf.from_asset
                  AND ac_{0}.leaf_id IN (SELECT id FROM descendants_{0})
                LIMIT 1
            ) THEN c{0}.name",
            node_id
        )
    };
    assert_eq!(build_breakdown_case_conditions(&[5]), one(5));
    assert_eq!(
        build_breakdown_case_conditions(&[5, 61]),
        format!("{}\n        {}", one(5), one(61))
    );
    assert_eq!(
        build_breakdown_case_conditions_on(&[5], "bc.asset"),
        one(5).replace("bf.from_asset", "bc.asset")
    );
}

#[test]
fn breakdown_query_fills_every_placeholder_of_the_source() {
    let mut filters: HashMap<i32, Vec<i32>> = HashMap::new();
    filters.insert(1, vec![2]);
    let grouper = [3, 4];
    let source = "(SELECT CASE {breakdown_case_conditions} ELSE 'Other' END AS asset{breakdown_selects} FROM b {breakdown_joins} WHERE 1 {filter_conditions} GROUP BY x{breakdown_group_by}) AS s";
    let cols = build_breakdown_columns(&grouper);
    let sql = build_resolution_query_with_filters_and_breakdown(
        source, "v", &cols, Aggregation::Sum, 12, &filters, &grouper,
    );
    let col_refs: Vec<&str> = cols.iter().map(String::as_str).collect();
    let expected = build_resolution_query(source, "v", &col_refs, Aggregation::Sum, 12, false)
        .replace("{filter_conditions}", &build_filter_conditions(&filters))
        .replace("{breakdown_joins}", &build_breakdown_joins(&grouper))
        .replace("{breakdown_selects}", &build_breakdown_selects(&grouper))
        .replace("{breakdown_case_conditions}", &build_breakdown_case_conditions(&grouper))
        .replace("{breakdown_group_by}", &build_breakdown_group_by(&grouper));
    assert_eq!(sql, expected);
    assert!(sql.contains("PARTITION BY asset, breakdown_3, breakdown_4, year"));
    assert!(!sql.contains('{'));
}

#[test]
fn carrier_filter_wraps_the_query() {
    assert_eq!(
        apply_carrier_filter("SELECT 1", "all"),
        "
            SELECT
                s.*,
                'all' AS carrier
            FROM (
                SELECT 1
            ) AS s
            "
    );
    assert_eq!(
        apply_carrier_filter("SELECT 1", "gas"),
        format!(
            "
            SELECT
                s.*,
                '{}' AS carrier
            FROM (
                {}
            ) AS s
            WHERE s.asset IN (
                SELECT asset FROM ({}) WHERE carrier = '{}'
            )
            ",
            "gas", "SELECT 1", INFER_CARRIER_SQL_FROM_OUTGOING_FLOWS, "gas"
        )
    );
    assert!(apply_carrier_filter("q", "All").contains("WHERE carrier = 'All'"));
}

#[test]
fn column_check_and_table_info() {
    assert_eq!(
        table_info_query("var_flow"),
        "SELECT column_name AS name FROM information_schema.columns WHERE table_name = 'var_flow';"
    );
    let columns = |names: &[&str]| {
        QueryEvent::Fetched(names.iter().map(|n| Ok(n.to_string())).collect::<Vec<_>>())
    };
    assert_eq!(column_in_table(columns(&["asset", "solution"]), "solution"), Ok(true));
    assert_eq!(column_in_table(columns(&["asset", "solution"]), "year"), Ok(false));
    // A table that the dataset lacks has no columns.
    assert_eq!(column_in_table(columns(&[]), "solution"), Ok(false));
    assert_eq!(
        column_in_table(QueryEvent::ExecutionFailed("gone".to_string()), "solution"),
        Err("error executing query: 'gone'".to_string())
    );
    assert_eq!(
        column_in_table(QueryEvent::ParseFailed("bad".to_string()), "solution"),
        Err("error parsing query: 'bad'".to_string())
    );
    assert_eq!(
        column_in_table(
            QueryEvent::Fetched(vec![Ok("solution".to_string()), Err("no text".to_string())]),
            "solution"
        ),
        Err("error mapping row: 'no text'".to_string())
    );
    let names = vec!["asset".to_string(), "solution".to_string()];
    assert!(check_column_in_table(&names, "solution"));
    assert!(!check_column_in_table(&names, "Solution"));
    assert!(!check_column_in_table(&names, "sol"));
    assert!(!check_column_in_table(&[], "solution"));
}
