//! Text of the queries that turn time-block rows into a series at a chosen
//! resolution. A query is a template in which named placeholders, written in
//! braces, are replaced by the caller's table, columns and parameters.
use crate::resample::Aggregation;
use crate::sorting::{ascending, sorted_keys};
use crate::text::{
    append_chars, append_decimal, append_str, chars_of, decimal, fill, join_chars, joined,
    replaced, slice_texts, string_of, string_texts, texts_of, unterminate, unterminated,
};
use std::collections::HashMap;
use vstd::prelude::*;

verus! {

/// Merges runs of equal values per representative period, cuts each period at every
/// block end, and weights the values: the stages of a series given by representative
/// periods, up to the table `final_rep_periods`.
pub const REP_PERIOD_RESOLUTION_SQL: &'static str = "
/* Assigns a group number (grp) to consecutive blocks that have the same {value_col} values
   within the same {group_cols}, year, and rep_period, ordered by time_block_start (chronologically).
*/
WITH numbered AS (
  SELECT *,
         ROW_NUMBER() OVER (PARTITION BY {group_cols}, year, rep_period ORDER BY time_block_start) 
       - ROW_NUMBER() OVER (PARTITION BY {group_cols}, year, rep_period, {value_col} ORDER BY time_block_start) AS grp
  FROM {source_table}
),
/* Aggregates consecutive rows (based on the grp from numbered) into a single time block
   by computing the MIN(time_block_start) and MAX(time_block_end) for each distinct {value_col} group.
*/
grouped AS (
  SELECT
    {group_cols},
    year,
    rep_period,
    {value_col},
    MIN(time_block_start) AS time_block_start,
    MAX(time_block_end) AS time_block_end
  FROM numbered
  WHERE year = ?
  GROUP BY {group_cols}, year, rep_period, {value_col}, grp
),
/* Generates all block end times per period by:
    - Including each time_block_end from grouped
    - Adding an extra starting point (0) to aid with boundary calculations
  We do that in order to get all time blocks for each period, including the start of the period.

*/
all_blocks AS (
  SELECT g.year, m.period, g.time_block_end
  FROM grouped AS g
  JOIN rep_periods_mapping AS m 
    ON g.year = m.year AND g.rep_period = m.rep_period
  UNION
  SELECT g.year, m.period, 0 AS time_block_end
  FROM grouped AS g
  JOIN rep_periods_mapping AS m 
    ON g.year = m.year AND g.rep_period = m.rep_period
),
/* Assigns a row number (rn) to each time_block_end value within a given year and period,
   so that we can later pair consecutive time blocks together.
*/
ranked_blocks AS (
  SELECT 
    year,
    period,
    time_block_end,
    ROW_NUMBER() OVER (PARTITION BY year, period ORDER BY time_block_end) AS rn
  FROM all_blocks
),
/* Pairs each time block end with the next one to form all the
   [start_hour, end_hour) intervals for each period in each year.
*/
periods AS (
  SELECT
    first.year,
    first.period, 
    first.time_block_end AS start_hour,
    second.time_block_end AS end_hour
  FROM ranked_blocks AS first
  JOIN ranked_blocks AS second
    ON first.year = second.year
    AND first.period = second.period
    AND first.rn + 1 = second.rn
),
/* Builds an initial y-axis. Calculates weighted sums of {value_col} values
   over the [start_hour, end_hour) intervals, taking into account the weight
   and resolution of each representative period.
*/
raw AS (
  SELECT
      {group_cols},
      g.year AS milestone_year,
      m.period,
      (p.start_hour * d.resolution) AS start_hour,
      (p.end_hour * d.resolution) AS end_hour,
      SUM(g.{value_col} * m.weight / d.resolution ) AS y_axis
  FROM grouped AS g
  JOIN rep_periods_mapping AS m
      ON g.year = m.year AND g.rep_period = m.rep_period
  JOIN periods AS p
      ON p.year = m.year
      AND p.period = m.period
      AND p.start_hour + 1 >= g.time_block_start
      AND p.end_hour <= g.time_block_end
  JOIN rep_periods_data AS d
      ON d.year = m.year AND d.rep_period = m.rep_period
  GROUP BY
      {group_cols},
      g.year,
      m.period,
      d.resolution,
      p.start_hour,
      p.end_hour
),
/* Again groups consecutive data with the same y_axis values. */
numbered_blocks AS (
  SELECT *,
         ROW_NUMBER() OVER (PARTITION BY {group_cols}, milestone_year, period ORDER BY start_hour) -
         ROW_NUMBER() OVER (PARTITION BY {group_cols}, milestone_year, period, y_axis ORDER BY start_hour) AS grp
  FROM raw
),
/* Combines the consecutive blocks with the same y_axis values. */
final_rep_periods AS (
  SELECT
    {group_cols},
    milestone_year,
    period,
    MIN(start_hour) AS start_hour,
    MAX(end_hour) AS end_hour,
    y_axis
  FROM numbered_blocks
  GROUP BY
    {group_cols},
    milestone_year,
    period,
    y_axis,
    grp
),
";

/// The stages of a series given by blocks of periods of the clustered year, up to
/// the table `final_clustered`.
pub const CLUSTERED_YEAR_RESOLUTION_SQL: &'static str = "
  /* Generates a row for each period instead of having
  a single row per consecutive periods with the same price */
  pre_processed AS (
    SELECT
      {group_cols},
      year AS milestone_year,
      period,
      SUM({value_col}) AS y_axis
    FROM {source_table},
    LATERAL UNNEST(GENERATE_SERIES(period_block_start, period_block_end)) AS period(period)
    WHERE year = ?
    GROUP BY
      {group_cols},
      milestone_year,
      period
  ),
  /* Prepares the data to be in the needed format for the next query */
  final_clustered AS (
    SELECT DISTINCT
      {group_cols},
      milestone_year,
      m.period,
      0 AS start_hour,
      (d.num_timesteps * d.resolution) AS end_hour,
      y_axis
    FROM pre_processed AS pre
    JOIN rep_periods_mapping AS m ON pre.milestone_year = m.year AND pre.period = m.period
    JOIN rep_periods_data AS d ON m.year = d.year AND m.rep_period = d.rep_period
  ),
";

/// Unites the two series in the table `final`, adding the values where both have one.
pub const BOTH_RESOLUTIONS_SQL: &'static str = "
/* Combines the clustered and non-clustered data into a single table.*/
final AS (
  SELECT
    final_clustered.{group_cols},
    final_clustered.milestone_year,
    final_rep_periods.period,
    final_rep_periods.start_hour,
    final_rep_periods.end_hour,
    (final_rep_periods.y_axis + final_clustered.y_axis) AS y_axis
    FROM final_rep_periods
  JOIN final_clustered ON final_rep_periods.{group_cols} = final_clustered.{group_cols}
    AND final_rep_periods.milestone_year = final_clustered.milestone_year
    AND final_rep_periods.period = final_clustered.period
  
  UNION ALL
  SELECT * FROM final_rep_periods AS r
  WHERE NOT EXISTS (
    SELECT 1 FROM final_clustered AS c
    WHERE c.{group_cols} = r.{group_cols}
      AND c.milestone_year = r.milestone_year
      AND c.period = r.period
  )
  UNION ALL
  SELECT * FROM final_clustered AS c
  WHERE NOT EXISTS (
    SELECT 1 FROM final_rep_periods AS r
    WHERE r.{group_cols} = c.{group_cols}
      AND r.milestone_year = c.milestone_year
      AND r.period = c.period
  )

  ),
";

/// Places the periods on one time axis, cuts it into windows of the chosen width and
/// merges neighbours of equal value; `{final}` names the table it reads.
pub const LAST_PART_SQL: &'static str = "
  /* Calculates the total duration (in hours) of each period per {group_cols} and milestone_year:
     the resolution times the number of timesteps of its representative period. */
period_durations AS (
  SELECT
    {group_cols},
    milestone_year,
    f.period,
    MAX(d.num_timesteps * d.resolution) AS period_duration
  FROM (SELECT DISTINCT {group_cols}, milestone_year, period FROM {final}) AS f
  JOIN rep_periods_mapping AS m ON m.year = f.milestone_year AND m.period = f.period
  JOIN rep_periods_data AS d ON d.year = m.year AND d.rep_period = m.rep_period
  GROUP BY 
    {group_cols},
    milestone_year,
    f.period
),
/* Computes offset_val as the cumulative duration of all previous periods
   (to map each [start_hour, end_hour) interval to a global timeline).
*/   
final_with_offsets AS (
  SELECT *,
    COALESCE((
      SELECT SUM(d.period_duration)
      FROM period_durations d
      WHERE {group_cols_comparisons}
      AND d.milestone_year = f.milestone_year
      AND d.period < f.period
    ), 0) AS offset_val
  FROM {final} AS f
),
/* Add the offsets to the local start and end hours to create a global timeline.
*/
s_table AS (
  SELECT
    {group_cols},
    milestone_year,
    (offset_val + start_hour) AS global_start,
    (offset_val + end_hour) AS global_end,
    y_axis
  FROM final_with_offsets
  ORDER BY
    {group_cols},
    milestone_year,
    global_start
),
/* Calculates the global_start and global_end based on the specified period length.
   This allows us to handle cases where a single time block spans multiple periods (here a period has the resolution length).
*/
exploded AS (
  SELECT 
    {group_cols},
    milestone_year,
    global_start,
    global_end,
    y_axis,
    FLOOR(global_start / {period_length}) AS first_period,
    FLOOR((global_end - 1) / {period_length}) AS last_period
  FROM s_table
),
/* Generates all resolution periods. For each row in exploded, it creates a series of periods.
   Each period is defined by its start and end times, which are adjusted to fit within the global_start and global_end.
*/
resolution_periods AS (
  SELECT 
    e.{group_cols},
    e.milestone_year,
    p.period,
    GREATEST(e.global_start, p.period * {period_length}) AS period_start,
    LEAST(e.global_end, (p.period + 1) * {period_length}) AS period_end,
    e.y_axis
  FROM exploded e
  JOIN LATERAL (
    SELECT UNNEST(generate_series(
      CAST(e.first_period AS BIGINT),
      CAST(e.last_period AS BIGINT))
    ) AS period
  ) AS p ON TRUE
),
/* Calculates the weighted price for each period by multiplying the duration of each period
   by the y_axis value, and then sums these values to get the total weighted price.
*/
weighted AS (
  SELECT
    {group_cols},
    milestone_year,
    period,
    MIN(period_start) AS window_start,
    MAX(period_end) AS window_end,
    SUM((period_end - period_start) * y_axis) AS weighted_price,
    SUM(period_end - period_start) AS duration
  FROM resolution_periods
  GROUP BY {group_cols}, milestone_year, period
),
/* Computes the average or total weighted price for each period, on the hours
   that the period covers. If the aggregation is 'avg', it divides the weighted
   price by the duration of the period. Otherwise, it returns the weighted price
   (so just return the sum).
*/
period_avg AS (
  SELECT
    {group_cols},
    milestone_year,
    window_start AS global_start_val,
    window_end AS global_end_val,
    CASE WHEN '{agg}' = 'avg' THEN weighted_price / NULLIF(duration, 0)
          ELSE weighted_price END AS y_axis
  FROM weighted
),
/* Again it groups consecutive data with the same y_axis values. */
numbered_1 AS (
  SELECT *,
    ROW_NUMBER() OVER (PARTITION BY {group_cols}, milestone_year ORDER BY global_start_val) -
    ROW_NUMBER() OVER (PARTITION BY {group_cols}, milestone_year, y_axis ORDER BY global_start_val) AS grp
  FROM period_avg
),
/* Merges the consecutive blocks with the same y_axis values. */
merged AS (
  SELECT
    {group_cols},
    milestone_year,
    MIN(global_start_val) AS global_start,
    MAX(global_end_val) AS global_end,
    y_axis
  FROM numbered_1
  GROUP BY {group_cols}, milestone_year, y_axis, grp
)
/* Returns the final dataset. */
SELECT *
FROM merged
ORDER BY {group_cols}, milestone_year, global_start;";

/// The branch of the bucket choice for one breakdown node; `{0}` stands for its id.
pub const BREAKDOWN_CASE_SQL: &'static str = "WHEN EXISTS (
                WITH RECURSIVE descendants_{0} AS (
                    SELECT id FROM category WHERE id = {0}
                    UNION ALL
                    SELECT c.id FROM category c 
                    JOIN descendants_{0} d ON c.parent_id = d.id
                )
                SELECT 1 FROM asset_category ac_{0}
                WHERE ac_{0}.asset = bf.from_asset
                  AND ac_{0}.leaf_id IN (SELECT id FROM descendants_{0})
                LIMIT 1
            ) THEN c{0}.name";

/// The join that brings in the category row of one breakdown node.
pub const BREAKDOWN_JOIN_SQL: &'static str = "LEFT JOIN category c{0} ON c{0}.id = {0}";

/// The selected name column of one breakdown node.
pub const BREAKDOWN_SELECT_SQL: &'static str = "c{0}.name AS breakdown_{0}";

/// The name of one breakdown node, as grouped by.
pub const BREAKDOWN_GROUP_SQL: &'static str = "c{0}.name";

/// The result column of one breakdown node.
pub const BREAKDOWN_COLUMN: &'static str = "breakdown_{0}";

/// The nodes under the allowed nodes of one root; `{0}` stands for the root's id
/// and `{1}` for the list of allowed ids.
pub const FILTER_DESCENDANTS_SQL: &'static str = "WITH RECURSIVE sub{0} AS (  
                SELECT id FROM category WHERE id IN ({1})  
              UNION ALL  
                SELECT c.id FROM category c JOIN sub{0} s ON c.parent_id = s.id
            )";

/// The condition that an asset lies under an allowed node of one root;
/// `{desc_cte}` stands for the filled text of `FILTER_DESCENDANTS_SQL`.
pub const FILTER_CONDITION_SQL: &'static str = "EXISTS (
                {desc_cte}
                SELECT 1
                FROM asset_category ac{0}
                WHERE ac{0}.asset = f.from_asset
                  AND ac{0}.root_id = {0}
                  AND ac{0}.leaf_id IN (SELECT id FROM sub{0})
            )";

/// The condition that no row meets.
pub const FILTER_NOTHING_SQL: &'static str = "FALSE";

/// The decimal numeral of each id of a list.
pub open spec fn id_texts(ids: Seq<i32>) -> Seq<Seq<char>> {
    Seq::new(ids.len(), |i: int| decimal(ids[i] as int))
}

/// `template` once per node, with `{0}` replaced by the node's id.
pub open spec fn per_node(template: Seq<char>, grouper: Seq<i32>) -> Seq<Seq<char>> {
    Seq::new(grouper.len(), |i: int| replaced(template, "{0}"@, decimal(grouper[i] as int)))
}

/// The equalities that tie the rows of `d` to those of `f`, one per column.
pub open spec fn comparisons_text(cols: Seq<Seq<char>>) -> Seq<char> {
    joined(Seq::new(cols.len(), |i: int| "d."@ + cols[i] + " = f."@ + cols[i]), " AND "@)
}

/// `template` with the grouping columns, the value column and the source table
/// filled in, in this order.
pub open spec fn with_columns(
    template: Seq<char>,
    cols: Seq<Seq<char>>,
    value_col: Seq<char>,
    source_table: Seq<char>,
) -> Seq<char> {
    replaced(
        replaced(
            replaced(
                replaced(template, "{group_cols}"@, joined(cols, ", "@)),
                "{group_cols_comparisons}"@,
                comparisons_text(cols),
            ),
            "{value_col}"@,
            value_col,
        ),
        "{source_table}"@,
        source_table,
    )
}

/// The word of an aggregation mode in a query.
pub open spec fn mode_text(agg: Aggregation) -> Seq<char> {
    match agg {
        Aggregation::Sum => "sum"@,
        Aggregation::Avg => "avg"@,
    }
}

/// `text` with the aggregation mode and the window width filled in.
pub open spec fn with_mode(text: Seq<char>, agg: Seq<char>, resolution: Seq<char>) -> Seq<
    char,
> {
    replaced(replaced(text, "{agg}"@, agg), "{period_length}"@, resolution)
}

/// The template of a query on one series: its own stages, then the shared last part
/// reading the table they end in.
pub open spec fn single_template(clustered: bool) -> Seq<char> {
    if clustered {
        "WITH "@ + CLUSTERED_YEAR_RESOLUTION_SQL@ + replaced(
            LAST_PART_SQL@,
            "{final}"@,
            "final_clustered"@,
        )
    } else {
        REP_PERIOD_RESOLUTION_SQL@ + replaced(LAST_PART_SQL@, "{final}"@, "final_rep_periods"@)
    }
}

/// The template of a query on two series that are united before the last part.
pub open spec fn both_template() -> Seq<char> {
    REP_PERIOD_RESOLUTION_SQL@ + replaced(
        CLUSTERED_YEAR_RESOLUTION_SQL@,
        "{source_table}"@,
        "{source_table_1}"@,
    ) + BOTH_RESOLUTIONS_SQL@ + replaced(LAST_PART_SQL@, "{final}"@, "final"@)
}

/// The text that `build_resolution_query` returns.
pub open spec fn resolution_query_text(
    source_table: Seq<char>,
    value_col: Seq<char>,
    cols: Seq<Seq<char>>,
    agg: Seq<char>,
    resolution: Seq<char>,
    clustered: bool,
) -> Seq<char> {
    with_mode(
        with_columns(single_template(clustered), cols, value_col, source_table),
        agg,
        resolution,
    )
}

/// The text that `build_resolution_query_both` returns.
pub open spec fn resolution_query_both_text(
    source_table: Seq<char>,
    source_table_1: Seq<char>,
    value_col: Seq<char>,
    cols: Seq<Seq<char>>,
    agg: Seq<char>,
    resolution: Seq<char>,
) -> Seq<char> {
    with_mode(
        replaced(
            with_columns(both_template(), cols, value_col, source_table),
            "{source_table_1}"@,
            source_table_1,
        ),
        agg,
        resolution,
    )
}

/// The condition that an asset lies under one of the nodes `allowed` of the root
/// `root`: the descendants query on one line, inside the membership test. Where no
/// node is allowed, the condition that no row meets.
pub open spec fn filter_condition_text(root: i32, allowed: Seq<i32>) -> Seq<char> {
    if allowed.len() == 0 {
        FILTER_NOTHING_SQL@
    } else {
        let descendants = replaced(
            replaced(FILTER_DESCENDANTS_SQL@, "{0}"@, decimal(root as int)),
            "{1}"@,
            joined(id_texts(allowed), ", "@),
        );
        replaced(
            replaced(FILTER_CONDITION_SQL@, "{desc_cte}"@, replaced(descendants, "\n"@, " "@)),
            "{0}"@,
            decimal(root as int),
        )
    }
}

/// The conditions of the roots `roots`, in their order, one for every root.
pub open spec fn filter_condition_texts(roots: Seq<i32>, filters: Map<i32, Vec<i32>>) -> Seq<
    Seq<char>,
>
    decreases roots.len(),
{
    if roots.len() == 0 {
        Seq::empty()
    } else {
        filter_condition_texts(roots.drop_last(), filters).push(
            filter_condition_text(roots.last(), filters[roots.last()]@),
        )
    }
}

/// The text that `build_filter_conditions` returns: nothing where the filter names
/// no root, else the conditions of its roots by increasing id, each led in by `AND`.
/// A root without allowed nodes lets no row through.
pub open spec fn filter_conditions_text(filters: Map<i32, Vec<i32>>) -> Seq<char> {
    let conditions = filter_condition_texts(ascending(filters.dom()), filters);
    if conditions.len() == 0 {
        Seq::empty()
    } else {
        "AND "@ + joined(conditions, " AND "@)
    }
}

/// The text that `build_resolution_query_with_filters` returns.
pub open spec fn filtered_query_text(
    source_table: Seq<char>,
    value_col: Seq<char>,
    cols: Seq<Seq<char>>,
    agg: Seq<char>,
    resolution: Seq<char>,
    filters: Map<i32, Vec<i32>>,
) -> Seq<char> {
    replaced(
        resolution_query_text(source_table, value_col, cols, agg, resolution, false),
        "{filter_conditions}"@,
        filter_conditions_text(filters),
    )
}

/// The text that `build_breakdown_case_conditions` returns.
pub open spec fn breakdown_case_conditions_text(grouper: Seq<i32>) -> Seq<char> {
    if grouper.len() == 0 {
        "bf.from_asset"@
    } else {
        joined(per_node(BREAKDOWN_CASE_SQL@, grouper), "\n        "@)
    }
}

/// The text that `build_breakdown_joins` returns.
pub open spec fn breakdown_joins_text(grouper: Seq<i32>) -> Seq<char> {
    joined(per_node(BREAKDOWN_JOIN_SQL@, grouper), "\n    "@)
}

/// The text that `build_breakdown_selects` returns.
pub open spec fn breakdown_selects_text(grouper: Seq<i32>) -> Seq<char> {
    if grouper.len() == 0 {
        Seq::empty()
    } else {
        ",\n      "@ + joined(per_node(BREAKDOWN_SELECT_SQL@, grouper), ",\n      "@)
    }
}

/// The text that `build_breakdown_group_by` returns.
pub open spec fn breakdown_group_by_text(grouper: Seq<i32>) -> Seq<char> {
    if grouper.len() == 0 {
        Seq::empty()
    } else {
        ",\n      "@ + joined(per_node(BREAKDOWN_GROUP_SQL@, grouper), ",\n      "@)
    }
}

/// The text that `build_resolution_query_with_filters_and_breakdown` returns.
pub open spec fn breakdown_query_text(
    source_table: Seq<char>,
    value_col: Seq<char>,
    cols: Seq<Seq<char>>,
    agg: Seq<char>,
    resolution: Seq<char>,
    filters: Map<i32, Vec<i32>>,
    grouper: Seq<i32>,
) -> Seq<char> {
    replaced(
        replaced(
            replaced(
                replaced(
                    filtered_query_text(source_table, value_col, cols, agg, resolution, filters),
                    "{breakdown_joins}"@,
                    breakdown_joins_text(grouper),
                ),
                "{breakdown_selects}"@,
                breakdown_selects_text(grouper),
            ),
            "{breakdown_case_conditions}"@,
            breakdown_case_conditions_text(grouper),
        ),
        "{breakdown_group_by}"@,
        breakdown_group_by_text(grouper),
    )
}

/// Renders `template` once per node.
fn render_per_node(template: &str, grouper: &[i32]) -> (parts: Vec<Vec<char>>)
    ensures
        texts_of(parts@) == per_node(template@, grouper@),
{
    let t: Vec<char> = chars_of(template);
    let mut parts: Vec<Vec<char>> = Vec::new();
    let mut i: usize = 0;
    while i < grouper.len()
        invariant
            i <= grouper.len(),
            t@ == template@,
            parts.len() == i,
            forall|k: int|
                0 <= k < i ==> parts@[k]@ == replaced(
                    template@,
                    "{0}"@,
                    decimal(grouper@[k] as int),
                ),
        decreases grouper.len() - i,
    {
        let mut id: Vec<char> = Vec::new();
        append_decimal(&mut id, grouper[i] as i64);
        assert(id@ =~= decimal(grouper@[i as int] as int));
        parts.push(fill(&t, "{0}", &id));
        i += 1;
    }
    assert(texts_of(parts@) =~= per_node(template@, grouper@));
    parts
}

/// The characters of each column name.
fn column_chars(cols: &[&str]) -> (parts: Vec<Vec<char>>)
    ensures
        texts_of(parts@) == slice_texts(cols@),
{
    let mut parts: Vec<Vec<char>> = Vec::new();
    let mut i: usize = 0;
    while i < cols.len()
        invariant
            i <= cols.len(),
            parts.len() == i,
            forall|k: int| 0 <= k < i ==> parts@[k]@ == cols@[k]@,
        decreases cols.len() - i,
    {
        parts.push(chars_of(cols[i]));
        i += 1;
    }
    assert(texts_of(parts@) =~= slice_texts(cols@));
    parts
}

/// The characters of each column name.
fn owned_column_chars(cols: &[String]) -> (parts: Vec<Vec<char>>)
    ensures
        texts_of(parts@) == string_texts(cols@),
{
    let mut parts: Vec<Vec<char>> = Vec::new();
    let mut i: usize = 0;
    while i < cols.len()
        invariant
            i <= cols.len(),
            parts.len() == i,
            forall|k: int| 0 <= k < i ==> parts@[k]@ == cols@[k]@,
        decreases cols.len() - i,
    {
        parts.push(chars_of(cols[i].as_str()));
        i += 1;
    }
    assert(texts_of(parts@) =~= string_texts(cols@));
    parts
}

/// The equalities between the rows of `d` and `f`, one per column.
fn comparisons(cols: &Vec<Vec<char>>) -> (out: Vec<char>)
    ensures
        out@ == comparisons_text(texts_of(cols@)),
{
    let mut parts: Vec<Vec<char>> = Vec::new();
    let mut i: usize = 0;
    while i < cols.len()
        invariant
            i <= cols.len(),
            parts.len() == i,
            forall|k: int|
                0 <= k < i ==> parts@[k]@ == "d."@ + cols@[k]@ + " = f."@ + cols@[k]@,
        decreases cols.len() - i,
    {
        let mut part: Vec<char> = Vec::new();
        append_str(&mut part, "d.");
        append_chars(&mut part, &cols[i]);
        append_str(&mut part, " = f.");
        append_chars(&mut part, &cols[i]);
        assert(part@ =~= "d."@ + cols@[i as int]@ + " = f."@ + cols@[i as int]@);
        parts.push(part);
        i += 1;
    }
    let ghost views = texts_of(cols@);
    assert(texts_of(parts@) =~= Seq::new(
        views.len(),
        |i: int| "d."@ + views[i] + " = f."@ + views[i],
    ));
    join_chars(&parts, " AND ")
}

/// Fills the grouping columns, the value column and the source table into `template`.
fn fill_columns(
    template: &Vec<char>,
    cols: &Vec<Vec<char>>,
    value_col: &str,
    source_table: &str,
) -> (out: Vec<char>)
    ensures
        out@ == with_columns(template@, texts_of(cols@), value_col@, source_table@),
{
    let group_cols_sql: Vec<char> = join_chars(cols, ", ");
    let group_cols_comparisons: Vec<char> = comparisons(cols);
    let a: Vec<char> = fill(template, "{group_cols}", &group_cols_sql);
    let b: Vec<char> = fill(&a, "{group_cols_comparisons}", &group_cols_comparisons);
    let c: Vec<char> = fill(&b, "{value_col}", &chars_of(value_col));
    fill(&c, "{source_table}", &chars_of(source_table))
}

/// The word of an aggregation mode in a query.
pub fn mode_name(agg: Aggregation) -> (name: &'static str)
    ensures
        name@ == mode_text(agg),
{
    match agg {
        Aggregation::Sum => "sum",
        Aggregation::Avg => "avg",
    }
}

/// The decimal numeral of a window width.
fn numeral(resolution: u32) -> (text: String)
    ensures
        text@ == decimal(resolution as int),
{
    let mut width: Vec<char> = Vec::new();
    append_decimal(&mut width, resolution as i64);
    assert(width@ =~= decimal(resolution as int));
    string_of(&width)
}

/// Fills the aggregation mode and the window width into `text`.
fn fill_mode(text: &Vec<char>, agg: &str, resolution: &str) -> (out: Vec<char>)
    ensures
        out@ == with_mode(text@, agg@, resolution@),
{
    let a: Vec<char> = fill(text, "{agg}", &chars_of(agg));
    fill(&a, "{period_length}", &chars_of(resolution))
}

/// The shared last part, reading the table `table`.
fn last_part(table: &str) -> (out: Vec<char>)
    ensures
        out@ == replaced(LAST_PART_SQL@, "{final}"@, table@),
{
    fill(&chars_of(LAST_PART_SQL), "{final}", &chars_of(table))
}

/// The template of a query on one series.
fn single(clustered: bool) -> (out: Vec<char>)
    ensures
        out@ == single_template(clustered),
{
    let mut out: Vec<char> = Vec::new();
    if clustered {
        append_str(&mut out, "WITH ");
        append_str(&mut out, CLUSTERED_YEAR_RESOLUTION_SQL);
        append_chars(&mut out, &last_part("final_clustered"));
    } else {
        append_str(&mut out, REP_PERIOD_RESOLUTION_SQL);
        append_chars(&mut out, &last_part("final_rep_periods"));
    }
    assert(out@ =~= single_template(clustered));
    out
}

/// The query on one series, before any filter is filled in.
pub(crate) fn resolution_query(
    source_table: &str,
    value_col: &str,
    cols: &Vec<Vec<char>>,
    agg: &str,
    resolution: &str,
    clustered: bool,
) -> (out: Vec<char>)
    ensures
        out@ == resolution_query_text(
            source_table@,
            value_col@,
            texts_of(cols@),
            agg@,
            resolution@,
            clustered,
        ),
{
    let filled: Vec<char> = fill_columns(&single(clustered), cols, value_col, source_table);
    fill_mode(&filled, agg, resolution)
}

/// Builds the query that computes, per group and year, the series of `value_col` in
/// `source_table` at windows of `resolution` hours, aggregated by `agg`. The rows
/// are blocks of representative periods, or with `clustered` blocks of periods.
pub fn build_resolution_query(
    source_table: &str,
    value_col: &str,
    group_cols: &[&str],
    agg: Aggregation,
    resolution: u32,
    clustered: bool,
) -> (sql: String)
    ensures
        sql@ == resolution_query_text(
            source_table@,
            value_col@,
            slice_texts(group_cols@),
            mode_text(agg),
            decimal(resolution as int),
            clustered,
        ),
{
    let width: String = numeral(resolution);
    let cols: Vec<Vec<char>> = column_chars(group_cols);
    string_of(&resolution_query(source_table, value_col, &cols, mode_name(agg), width.as_str(), clustered))
}

/// Builds the query that unites the series of `source_table`, given by representative
/// periods, with that of `source_table_1`, given by the clustered year.
pub fn build_resolution_query_both(
    source_table: &str,
    source_table_1: &str,
    value_col: &str,
    group_cols: &[&str],
    agg: Aggregation,
    resolution: u32,
) -> (sql: String)
    ensures
        sql@ == resolution_query_both_text(
            source_table@,
            source_table_1@,
            value_col@,
            slice_texts(group_cols@),
            mode_text(agg),
            decimal(resolution as int),
        ),
{
    let width: String = numeral(resolution);
    let cols: Vec<Vec<char>> = column_chars(group_cols);
    let a: Vec<char> = fill_columns(&both(), &cols, value_col, source_table);
    let b: Vec<char> = fill(&a, "{source_table_1}", &chars_of(source_table_1));
    string_of(&fill_mode(&b, mode_name(agg), width.as_str()))
}

/// The condition of one root.
fn filter_condition(root: i32, allowed: &Vec<i32>) -> (out: Vec<char>)
    ensures
        out@ == filter_condition_text(root, allowed@),
{
    if allowed.len() == 0 {
        return chars_of(FILTER_NOTHING_SQL);
    }
    let mut id: Vec<char> = Vec::new();
    append_decimal(&mut id, root as i64);
    assert(id@ =~= decimal(root as int));
    let mut ids: Vec<Vec<char>> = Vec::new();
    let mut i: usize = 0;
    while i < allowed.len()
        invariant
            i <= allowed.len(),
            ids.len() == i,
            forall|k: int| 0 <= k < i ==> ids@[k]@ == decimal(allowed@[k] as int),
        decreases allowed.len() - i,
    {
        let mut one: Vec<char> = Vec::new();
        append_decimal(&mut one, allowed[i] as i64);
        assert(one@ =~= decimal(allowed@[i as int] as int));
        ids.push(one);
        i += 1;
    }
    assert(texts_of(ids@) =~= id_texts(allowed@));
    let ids_csv: Vec<char> = join_chars(&ids, ", ");
    let a: Vec<char> = fill(&chars_of(FILTER_DESCENDANTS_SQL), "{0}", &id);
    let descendants: Vec<char> = fill(&a, "{1}", &ids_csv);
    let one_line: Vec<char> = fill(&descendants, "\n", &chars_of(" "));
    let b: Vec<char> = fill(&chars_of(FILTER_CONDITION_SQL), "{desc_cte}", &one_line);
    fill(&b, "{0}", &id)
}

/// The conditions that the filters put on the rows, ready to follow a `WHERE` clause.
pub(crate) fn filter_conditions(filters: &HashMap<i32, Vec<i32>>) -> (out: Vec<char>)
    ensures
        out@ == filter_conditions_text(filters@),
{
    broadcast use vstd::std_specs::hash::group_hash_axioms;

    let roots: Vec<i32> = sorted_keys(filters);
    let mut conditions: Vec<Vec<char>> = Vec::new();
    let mut i: usize = 0;
    proof {
        assert forall|k: int| 0 <= k < roots.len() implies filters@.contains_key(
            #[trigger] roots@[k],
        ) by {
            assert(roots@.contains(roots@[k]));
        }
    }
    while i < roots.len()
        invariant
            i <= roots.len(),
            forall|k: int| 0 <= k < roots.len() ==> filters@.contains_key(#[trigger] roots@[k]),
            texts_of(conditions@) == filter_condition_texts(roots@.take(i as int), filters@),
        decreases roots.len() - i,
    {
        let root: i32 = roots[i];
        assert(filters@.contains_key(roots@[i as int]));
        let allowed: Option<&Vec<i32>> = filters.get(&root);
        proof {
            assert(roots@.take(i + 1).drop_last() =~= roots@.take(i as int));
        }
        match allowed {
            Some(ids) => {
                let ghost before = texts_of(conditions@);
                conditions.push(filter_condition(root, ids));
                assert(texts_of(conditions@) =~= before.push(filter_condition_text(root, ids@)));
            },
            None => {},
        }
        i += 1;
    }
    assert(roots@.take(roots.len() as int) =~= roots@);
    let mut out: Vec<char> = Vec::new();
    if conditions.len() > 0 {
        append_str(&mut out, "AND ");
        append_chars(&mut out, &join_chars(&conditions, " AND "));
        assert(out@ =~= "AND "@ + joined(texts_of(conditions@), " AND "@));
    }
    assert(out@ =~= filter_conditions_text(filters@));
    out
}

/// Builds the conditions that keep an asset only where, for each root of the
/// filter, its leaf category lies under one of the root's allowed nodes; under a
/// root without allowed nodes no asset is kept. The roots come by increasing id.
pub fn build_filter_conditions(filters_by_category: &HashMap<i32, Vec<i32>>) -> (sql: String)
    ensures
        sql@ == filter_conditions_text(filters_by_category@),
{
    string_of(&filter_conditions(filters_by_category))
}

/// Builds the query of `build_resolution_query` on representative periods, with the
/// placeholder `{filter_conditions}` of the source table filled from the filters.
pub fn build_resolution_query_with_filters(
    source_table: &str,
    value_col: &str,
    group_cols: &[&str],
    agg: Aggregation,
    resolution: u32,
    filters_by_category: &HashMap<i32, Vec<i32>>,
) -> (sql: String)
    ensures
        sql@ == filtered_query_text(
            source_table@,
            value_col@,
            slice_texts(group_cols@),
            mode_text(agg),
            decimal(resolution as int),
            filters_by_category@,
        ),
{
    let width: String = numeral(resolution);
    let cols: Vec<Vec<char>> = column_chars(group_cols);
    string_of(&filtered_query(source_table, value_col, &cols, mode_name(agg), width.as_str(), filters_by_category))
}

/// Builds the query that groups by breakdown buckets: the filtered query, with the
/// breakdown placeholders of the source table filled from the nodes of `grouper`.
pub fn build_resolution_query_with_filters_and_breakdown(
    source_table: &str,
    value_col: &str,
    breakdown_cols: &[String],
    agg: Aggregation,
    resolution: u32,
    filters_by_category: &HashMap<i32, Vec<i32>>,
    grouper: &[i32],
) -> (sql: String)
    ensures
        sql@ == breakdown_query_text(
            source_table@,
            value_col@,
            string_texts(breakdown_cols@),
            mode_text(agg),
            decimal(resolution as int),
            filters_by_category@,
            grouper@,
        ),
{
    let width: String = numeral(resolution);
    let cols: Vec<Vec<char>> = owned_column_chars(breakdown_cols);
    string_of(
        &breakdown_query(
            source_table,
            value_col,
            &cols,
            mode_name(agg),
            width.as_str(),
            filters_by_category,
            grouper,
        ),
    )
}

/// Builds the names of the result columns: the asset, then one per breakdown node.
pub fn build_breakdown_columns(grouper: &[i32]) -> (columns: Vec<String>)
    ensures
        columns@.len() == grouper@.len() + 1,
        columns@[0]@ == "asset"@,
        forall|i: int|
            0 <= i < grouper@.len() ==> (#[trigger] columns@[i + 1])@ == replaced(
                BREAKDOWN_COLUMN@,
                "{0}"@,
                decimal(grouper@[i] as int),
            ),
{
    let parts: Vec<Vec<char>> = render_per_node(BREAKDOWN_COLUMN, grouper);
    let mut columns: Vec<String> = Vec::new();
    columns.push(string_of(&chars_of("asset")));
    let mut i: usize = 0;
    assert(texts_of(parts@).len() == parts.len());
    while i < parts.len()
        invariant
            i <= parts.len(),
            parts.len() == grouper@.len(),
            texts_of(parts@) == per_node(BREAKDOWN_COLUMN@, grouper@),
            columns@.len() == i + 1,
            columns@[0]@ == "asset"@,
            forall|k: int| 0 <= k < i ==> (#[trigger] columns@[k + 1])@ == parts@[k]@,
        decreases parts.len() - i,
    {
        columns.push(string_of(&parts[i]));
        i += 1;
    }
    assert forall|i: int| 0 <= i < grouper@.len() implies (#[trigger] columns@[i + 1])@
        == replaced(BREAKDOWN_COLUMN@, "{0}"@, decimal(grouper@[i] as int)) by {
        assert(texts_of(parts@)[i] == parts@[i]@);
    }
    columns
}

/// The bucket choice of all breakdown nodes.
fn breakdown_case_conditions(grouper: &[i32]) -> (out: Vec<char>)
    ensures
        out@ == breakdown_case_conditions_text(grouper@),
{
    if grouper.len() == 0 {
        return chars_of("bf.from_asset");
    }
    join_chars(&render_per_node(BREAKDOWN_CASE_SQL, grouper), "\n        ")
}

/// The joins of all breakdown nodes.
fn breakdown_joins(grouper: &[i32]) -> (out: Vec<char>)
    ensures
        out@ == breakdown_joins_text(grouper@),
{
    join_chars(&render_per_node(BREAKDOWN_JOIN_SQL, grouper), "\n    ")
}

/// The selected name columns of all breakdown nodes.
fn breakdown_selects(grouper: &[i32]) -> (out: Vec<char>)
    ensures
        out@ == breakdown_selects_text(grouper@),
{
    let mut out: Vec<char> = Vec::new();
    if grouper.len() > 0 {
        append_str(&mut out, ",\n      ");
        append_chars(&mut out, &join_chars(&render_per_node(BREAKDOWN_SELECT_SQL, grouper), ",\n      "));
        assert(out@ =~= breakdown_selects_text(grouper@));
    }
    out
}

/// The grouped names of all breakdown nodes.
fn breakdown_group_by(grouper: &[i32]) -> (out: Vec<char>)
    ensures
        out@ == breakdown_group_by_text(grouper@),
{
    let mut out: Vec<char> = Vec::new();
    if grouper.len() > 0 {
        append_str(&mut out, ",\n      ");
        append_chars(&mut out, &join_chars(&render_per_node(BREAKDOWN_GROUP_SQL, grouper), ",\n      "));
        assert(out@ =~= breakdown_group_by_text(grouper@));
    }
    out
}

/// The conditions of the filters on the asset column `column` in place of the flow's
/// source column.
pub open spec fn filter_conditions_on_text(filters: Map<i32, Vec<i32>>, column: Seq<char>) -> Seq<
    char,
> {
    replaced(filter_conditions_text(filters), "f.from_asset"@, column)
}

/// The bucket choice on the asset column `column`.
pub open spec fn breakdown_case_conditions_on_text(grouper: Seq<i32>, column: Seq<char>) -> Seq<
    char,
> {
    replaced(breakdown_case_conditions_text(grouper), "bf.from_asset"@, column)
}

/// `text` with the placeholders of the breakdown filled in: the selected columns,
/// the grouping items, the joins, and the bucket choice on the column `column`.
pub open spec fn with_breakdown(text: Seq<char>, grouper: Seq<i32>, column: Seq<char>) -> Seq<
    char,
> {
    replaced(
        replaced(
            replaced(
                replaced(text, "{breakdown_selects}"@, breakdown_selects_text(grouper)),
                "{breakdown_group_by}"@,
                breakdown_group_by_text(grouper),
            ),
            "{breakdown_joins}"@,
            breakdown_joins_text(grouper),
        ),
        "{breakdown_case_conditions}"@,
        breakdown_case_conditions_on_text(grouper, column),
    )
}

/// The query that gives the assets to compute on: all of them, or with the
/// category tables in use those that pass the filters.
pub open spec fn filtered_assets_text(enable_metadata: bool, filters: Map<i32, Vec<i32>>) -> Seq<
    char,
> {
    if enable_metadata {
        "SELECT * FROM asset AS a WHERE 1 "@ + filter_conditions_on_text(filters, "a.asset"@)
    } else {
        "SELECT * FROM asset"@
    }
}

/// `text` with the placeholder `{filtered_assets}` filled in.
pub open spec fn with_filtered_assets(
    text: Seq<char>,
    enable_metadata: bool,
    filters: Map<i32, Vec<i32>>,
) -> Seq<char> {
    replaced(text, "{filtered_assets}"@, filtered_assets_text(enable_metadata, filters))
}

/// The conditions of the filters on the asset column `column`.
pub(crate) fn filter_conditions_on(filters: &HashMap<i32, Vec<i32>>, column: &str) -> (out: Vec<char>)
    ensures
        out@ == filter_conditions_on_text(filters@, column@),
{
    fill(&filter_conditions(filters), "f.from_asset", &chars_of(column))
}

/// The bucket choice on the asset column `column`.
pub(crate) fn breakdown_case_conditions_on(grouper: &[i32], column: &str) -> (out: Vec<char>)
    ensures
        out@ == breakdown_case_conditions_on_text(grouper@, column@),
{
    fill(&breakdown_case_conditions(grouper), "bf.from_asset", &chars_of(column))
}

/// Fills the placeholders of the breakdown into `text`.
pub(crate) fn fill_breakdown(text: &Vec<char>, grouper: &[i32], column: &str) -> (out: Vec<char>)
    ensures
        out@ == with_breakdown(text@, grouper@, column@),
{
    let a: Vec<char> = fill(text, "{breakdown_selects}", &breakdown_selects(grouper));
    let b: Vec<char> = fill(&a, "{breakdown_group_by}", &breakdown_group_by(grouper));
    let c: Vec<char> = fill(&b, "{breakdown_joins}", &breakdown_joins(grouper));
    fill(&c, "{breakdown_case_conditions}", &breakdown_case_conditions_on(grouper, column))
}

/// Fills the placeholder `{filtered_assets}` into `text`.
pub(crate) fn fill_filtered_assets(
    text: &Vec<char>,
    enable_metadata: bool,
    filters: &HashMap<i32, Vec<i32>>,
) -> (out: Vec<char>)
    ensures
        out@ == with_filtered_assets(text@, enable_metadata, filters@),
{
    let mut assets: Vec<char> = Vec::new();
    if enable_metadata {
        append_str(&mut assets, "SELECT * FROM asset AS a WHERE 1 ");
        append_chars(&mut assets, &filter_conditions_on(filters, "a.asset"));
    } else {
        append_str(&mut assets, "SELECT * FROM asset");
    }
    assert(assets@ =~= filtered_assets_text(enable_metadata, filters@));
    fill(text, "{filtered_assets}", &assets)
}

/// Builds the conditions of the filters on the asset column `asset_column`.
pub fn build_filter_conditions_on(
    filters_by_category: &HashMap<i32, Vec<i32>>,
    asset_column: &str,
) -> (sql: String)
    ensures
        sql@ == filter_conditions_on_text(filters_by_category@, asset_column@),
{
    string_of(&filter_conditions_on(filters_by_category, asset_column))
}

/// Builds the bucket choice on the asset column `asset_column`.
pub fn build_breakdown_case_conditions_on(grouper: &[i32], asset_column: &str) -> (sql: String)
    ensures
        sql@ == breakdown_case_conditions_on_text(grouper@, asset_column@),
{
    string_of(&breakdown_case_conditions_on(grouper, asset_column))
}

/// The names of the result columns as texts: the asset, then one per breakdown node.
pub open spec fn breakdown_column_texts(grouper: Seq<i32>) -> Seq<Seq<char>> {
    seq!["asset"@] + per_node(BREAKDOWN_COLUMN@, grouper)
}

/// The names of the result columns.
pub(crate) fn breakdown_columns(grouper: &[i32]) -> (columns: Vec<Vec<char>>)
    ensures
        texts_of(columns@) == breakdown_column_texts(grouper@),
{
    let parts: Vec<Vec<char>> = render_per_node(BREAKDOWN_COLUMN, grouper);
    let mut columns: Vec<Vec<char>> = Vec::new();
    columns.push(chars_of("asset"));
    let mut i: usize = 0;
    assert(texts_of(parts@).len() == parts.len());
    while i < parts.len()
        invariant
            i <= parts.len(),
            parts.len() == grouper@.len(),
            texts_of(parts@) == per_node(BREAKDOWN_COLUMN@, grouper@),
            columns@.len() == i + 1,
            columns@[0]@ == "asset"@,
            forall|k: int| 0 <= k < i ==> (#[trigger] columns@[k + 1])@ == parts@[k]@,
        decreases parts.len() - i,
    {
        let mut copy: Vec<char> = Vec::new();
        append_chars(&mut copy, &parts[i]);
        columns.push(copy);
        i += 1;
    }
    assert(texts_of(columns@) =~= breakdown_column_texts(grouper@)) by {
        let want = breakdown_column_texts(grouper@);
        assert(want.len() == columns@.len());
        assert forall|k: int| 0 <= k < columns@.len() implies texts_of(columns@)[k] == want[k] by {
            if k > 0 {
                assert(columns@[(k - 1) + 1]@ == parts@[k - 1]@);
                assert(texts_of(parts@)[k - 1] == parts@[k - 1]@);
            }
        }
    }
    columns
}

/// The query on one series with its last semicolon taken off, to stand inside
/// another query.
pub(crate) fn inner_resolution_query(
    source_table: &str,
    value_col: &str,
    cols: &Vec<Vec<char>>,
    agg: &str,
    resolution: u32,
    clustered: bool,
) -> (out: Vec<char>)
    ensures
        out@ == unterminated(
            resolution_query_text(
                source_table@,
                value_col@,
                texts_of(cols@),
                agg@,
                decimal(resolution as int),
                clustered,
            ),
        ),
{
    let mut width: Vec<char> = Vec::new();
    append_decimal(&mut width, resolution as i64);
    assert(width@ =~= decimal(resolution as int));
    let filled: Vec<char> = fill_columns(&single(clustered), cols, value_col, source_table);
    let a: Vec<char> = fill(&filled, "{agg}", &chars_of(agg));
    let b: Vec<char> = fill(&a, "{period_length}", &width);
    unterminate(&b)
}

/// The query on two series with its last semicolon taken off, to stand inside
/// another query.
pub(crate) fn inner_resolution_query_both(
    source_table: &str,
    source_table_1: &str,
    value_col: &str,
    cols: &Vec<Vec<char>>,
    agg: &str,
    resolution: u32,
) -> (out: Vec<char>)
    ensures
        out@ == unterminated(
            resolution_query_both_text(
                source_table@,
                source_table_1@,
                value_col@,
                texts_of(cols@),
                agg@,
                decimal(resolution as int),
            ),
        ),
{
    let mut width: Vec<char> = Vec::new();
    append_decimal(&mut width, resolution as i64);
    assert(width@ =~= decimal(resolution as int));
    let a: Vec<char> = fill_columns(&both(), cols, value_col, source_table);
    let b: Vec<char> = fill(&a, "{source_table_1}", &chars_of(source_table_1));
    let c: Vec<char> = fill(&b, "{agg}", &chars_of(agg));
    let d: Vec<char> = fill(&c, "{period_length}", &width);
    unterminate(&d)
}

/// The template of a query on two series.
fn both() -> (out: Vec<char>)
    ensures
        out@ == both_template(),
{
    let mut template: Vec<char> = Vec::new();
    append_str(&mut template, REP_PERIOD_RESOLUTION_SQL);
    let clustered: Vec<char> = fill(
        &chars_of(CLUSTERED_YEAR_RESOLUTION_SQL),
        "{source_table}",
        &chars_of("{source_table_1}"),
    );
    append_chars(&mut template, &clustered);
    append_str(&mut template, BOTH_RESOLUTIONS_SQL);
    append_chars(&mut template, &last_part("final"));
    assert(template@ =~= both_template());
    template
}

/// The filtered query on one series.
pub(crate) fn filtered_query(
    source_table: &str,
    value_col: &str,
    cols: &Vec<Vec<char>>,
    agg: &str,
    resolution: &str,
    filters: &HashMap<i32, Vec<i32>>,
) -> (out: Vec<char>)
    ensures
        out@ == filtered_query_text(
            source_table@,
            value_col@,
            texts_of(cols@),
            agg@,
            resolution@,
            filters@,
        ),
{
    let query: Vec<char> = resolution_query(source_table, value_col, cols, agg, resolution, false);
    fill(&query, "{filter_conditions}", &filter_conditions(filters))
}

/// The filtered query on one series, by breakdown buckets.
pub(crate) fn breakdown_query(
    source_table: &str,
    value_col: &str,
    cols: &Vec<Vec<char>>,
    agg: &str,
    resolution: &str,
    filters: &HashMap<i32, Vec<i32>>,
    grouper: &[i32],
) -> (out: Vec<char>)
    ensures
        out@ == breakdown_query_text(
            source_table@,
            value_col@,
            texts_of(cols@),
            agg@,
            resolution@,
            filters@,
            grouper@,
        ),
{
    let a: Vec<char> = filtered_query(source_table, value_col, cols, agg, resolution, filters);
    let b: Vec<char> = fill(&a, "{breakdown_joins}", &breakdown_joins(grouper));
    let c: Vec<char> = fill(&b, "{breakdown_selects}", &breakdown_selects(grouper));
    let d: Vec<char> = fill(&c, "{breakdown_case_conditions}", &breakdown_case_conditions(grouper));
    fill(&d, "{breakdown_group_by}", &breakdown_group_by(grouper))
}

/// The one column by which a series is grouped where there is no breakdown.
pub(crate) fn asset_column() -> (columns: Vec<Vec<char>>)
    ensures
        texts_of(columns@) == seq!["asset"@],
{
    let mut columns: Vec<Vec<char>> = Vec::new();
    columns.push(chars_of("asset"));
    assert(texts_of(columns@) =~= seq!["asset"@]);
    columns
}

/// Builds the branches that choose the bucket of a row: for each breakdown node, in
/// order, the test that the row's asset lies under it, giving the node's name. With
/// no node the asset itself is the bucket.
pub fn build_breakdown_case_conditions(grouper: &[i32]) -> (sql: String)
    ensures
        sql@ == breakdown_case_conditions_text(grouper@),
{
    string_of(&breakdown_case_conditions(grouper))
}

/// Builds the joins that bring in the category row of each breakdown node.
pub fn build_breakdown_joins(grouper: &[i32]) -> (sql: String)
    ensures
        sql@ == breakdown_joins_text(grouper@),
{
    string_of(&breakdown_joins(grouper))
}

/// Builds the select items that name the column of each breakdown node; empty with
/// no node, else led in by a comma.
pub fn build_breakdown_selects(grouper: &[i32]) -> (sql: String)
    ensures
        sql@ == breakdown_selects_text(grouper@),
{
    string_of(&breakdown_selects(grouper))
}

/// Builds the grouping items of the breakdown nodes; empty with no node, else led
/// in by a comma.
pub fn build_breakdown_group_by(grouper: &[i32]) -> (sql: String)
    ensures
        sql@ == breakdown_group_by_text(grouper@),
{
    string_of(&breakdown_group_by(grouper))
}

} // verus!
