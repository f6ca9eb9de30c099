//! The query for the capacity of the assets over the years, also on a dataset that
//! lacks the columns of the solution.
use crate::query_builder::{
    breakdown_case_conditions_on, breakdown_case_conditions_on_text, breakdown_group_by_text,
    breakdown_joins_text, breakdown_selects_text, build_breakdown_group_by,
    build_breakdown_joins, build_breakdown_selects, filter_conditions_on,
    filter_conditions_on_text,
};
use crate::text::{chars_of, fill, replaced, string_of};
use std::collections::HashMap;
use vstd::prelude::*;

verus! {

/// The capacity of each asset in each year.
pub const CAPACITY_SQL: &'static str = "
WITH years AS (
  SELECT DISTINCT year FROM (
    SELECT ab.milestone_year AS year FROM asset_both ab
    UNION
    SELECT i.milestone_year AS year FROM var_assets_investment i
    UNION
    SELECT milestone_year AS year FROM var_assets_decommission d
  ) t
),
assets AS (
  SELECT DISTINCT asset FROM asset_both
  UNION
  SELECT DISTINCT asset FROM var_assets_investment
  UNION
  SELECT DISTINCT asset FROM var_assets_decommission
)

SELECT
  af.asset,
  y.year,
  ANY_VALUE(CASE WHEN (i.solution IS NULL OR af.capacity IS NULL) THEN (-1) ELSE (i.solution * af.capacity) END) AS investment,
  ANY_VALUE(CASE WHEN (d.solution IS NULL OR af.capacity IS NULL) THEN (-1) ELSE (d.solution * af.capacity) END) AS decommission,
  (
    COALESCE(SUM(ab.initial_units),0)
    +
    (
      SELECT COALESCE(SUM(solution), 0)
      FROM var_assets_investment
      WHERE asset = af.asset AND milestone_year <= y.year
    )
    -
    (
    SELECT COALESCE(SUM(solution), 0)
    FROM var_assets_decommission
    WHERE asset = af.asset AND milestone_year <= y.year
    )
  ) * ANY_VALUE(af.capacity) AS final_capacity,
  (
    COALESCE(SUM(ab.initial_units),0)
    + 
    (
    SELECT COALESCE(SUM(solution), 0)
    FROM var_assets_investment
    WHERE asset = af.asset AND milestone_year < y.year
    )
    -
    (
    SELECT COALESCE(SUM(solution), 0)
    FROM var_assets_decommission
    WHERE asset = af.asset AND milestone_year < y.year
    )
  ) * ANY_VALUE(af.capacity) AS initial_capacity
FROM asset af
CROSS JOIN years y
LEFT JOIN var_assets_investment AS i ON (i.asset = af.asset AND i.milestone_year = y.year)
LEFT JOIN var_assets_decommission AS d ON (d.asset = af.asset AND d.milestone_year = y.year)
LEFT JOIN asset_both ab ON (ab.asset = af.asset AND ab.milestone_year = y.year)
WHERE af.asset IN (SELECT asset FROM assets)
GROUP BY af.asset, y.year
ORDER BY af.asset, y.year";

/// The capacity of each breakdown bucket in each year, of the assets that pass
/// the filters.
pub const CAPACITY_SQL_WITH_BREAKDOWN: &'static str = "
WITH years AS (
  SELECT DISTINCT year FROM (
    SELECT ab.milestone_year AS year FROM asset_both ab
    UNION
    SELECT i.milestone_year AS year FROM var_assets_investment i
    UNION
    SELECT milestone_year AS year FROM var_assets_decommission d
  ) t
),
assets AS (
  SELECT DISTINCT asset FROM asset_both
  UNION
  SELECT DISTINCT asset FROM var_assets_investment
  UNION
  SELECT DISTINCT asset FROM var_assets_decommission
),
base_capacity AS (
  SELECT
    af.asset,
    y.year,
    CASE WHEN (i.solution IS NULL OR af.capacity IS NULL) THEN (-1) ELSE (i.solution * af.capacity) END AS investment,
    CASE WHEN (d.solution IS NULL OR af.capacity IS NULL) THEN (-1) ELSE (d.solution * af.capacity) END AS decommission,
    (
      COALESCE(SUM(ab.initial_units),0)
      +
      (
        SELECT COALESCE(SUM(solution), 0)
        FROM var_assets_investment
        WHERE asset = af.asset AND milestone_year <= y.year
      )
      -
      (
      SELECT COALESCE(SUM(solution), 0)
      FROM var_assets_decommission
      WHERE asset = af.asset AND milestone_year <= y.year
      )
    ) * af.capacity AS final_capacity,
    (
      COALESCE(SUM(ab.initial_units),0)
      + 
      (
      SELECT COALESCE(SUM(solution), 0)
      FROM var_assets_investment
      WHERE asset = af.asset AND milestone_year < y.year
      )
      -
      (
      SELECT COALESCE(SUM(solution), 0)
      FROM var_assets_decommission
      WHERE asset = af.asset AND milestone_year < y.year
      )
    ) * af.capacity AS initial_capacity
  FROM asset af
  CROSS JOIN years y
  LEFT JOIN var_assets_investment AS i ON (i.asset = af.asset AND i.milestone_year = y.year)
  LEFT JOIN var_assets_decommission AS d ON (d.asset = af.asset AND d.milestone_year = y.year)
  LEFT JOIN asset_both ab ON (ab.asset = af.asset AND ab.milestone_year = y.year)
  WHERE af.asset IN (SELECT asset FROM assets){filter_conditions}
  GROUP BY af.asset, y.year, i.solution, d.solution, af.capacity
)

SELECT
  -- Group by breakdown categories and include 'Other' category
  CASE 
    {breakdown_case_conditions}
    ELSE 'Other'
  END AS asset,
  bc.year,
  SUM(bc.investment) AS investment,
  SUM(bc.decommission) AS decommission,
  SUM(bc.final_capacity) AS final_capacity,
  SUM(bc.initial_capacity) AS initial_capacity{breakdown_selects}
FROM base_capacity bc
{breakdown_joins}
GROUP BY 
  CASE 
    {breakdown_case_conditions}
    ELSE 'Other'
  END,
  bc.year{breakdown_group_by}
ORDER BY 
  CASE 
    {breakdown_case_conditions}
    ELSE 'Other'
  END, bc.year";

/// What stands for the investments where they lack the solution: the table with
/// the solution absent in every row.
pub const INVESTMENT_STAND_IN: &'static str =
    "(SELECT *, CAST(NULL AS DOUBLE) AS solution FROM var_assets_investment)";

/// What stands for the decommissions where they lack the solution: the table
/// with the solution absent in every row.
pub const DECOMMISSION_STAND_IN: &'static str =
    "(SELECT *, CAST(NULL AS DOUBLE) AS solution FROM var_assets_decommission)";

/// `template` read on a dataset that may lack the solution of the investments or
/// of the decommissions: a table that lacks it is read with the solution absent
/// in every row. Nothing in the text changes the dataset.
pub open spec fn with_absent_solutions(
    template: Seq<char>,
    investment_present: bool,
    decommission_present: bool,
) -> Seq<char> {
    let read = if investment_present {
        template
    } else {
        replaced(template, "var_assets_investment"@, INVESTMENT_STAND_IN@)
    };
    if decommission_present {
        read
    } else {
        replaced(read, "var_assets_decommission"@, DECOMMISSION_STAND_IN@)
    }
}

/// Puts the stand-ins of the tables that lack the solution into `template`.
fn fill_absent_solutions(
    template: Vec<char>,
    investment_present: bool,
    decommission_present: bool,
) -> (out: Vec<char>)
    ensures
        out@ == with_absent_solutions(template@, investment_present, decommission_present),
{
    let read: Vec<char> = if investment_present {
        template
    } else {
        fill(&template, "var_assets_investment", &chars_of(INVESTMENT_STAND_IN))
    };
    if decommission_present {
        read
    } else {
        fill(&read, "var_assets_decommission", &chars_of(DECOMMISSION_STAND_IN))
    }
}

/// The conditions of the filters on the assets of the capacity query; none where
/// no root is filtered.
pub open spec fn capacity_filter_text(filters: Map<i32, Vec<i32>>) -> Seq<char> {
    if filters.is_empty() {
        Seq::empty()
    } else {
        filter_conditions_on_text(filters, "af.asset"@)
    }
}

/// The text of the query for the capacity: by asset, or with the category tables
/// in use and a filter or a breakdown given, by bucket of the filtered assets. A
/// table that lacks the solution is read with the solution absent.
pub open spec fn capacity_text(
    filters: Map<i32, Vec<i32>>,
    grouper: Seq<i32>,
    enable_metadata: bool,
    investment_present: bool,
    decommission_present: bool,
) -> Seq<char> {
    if enable_metadata && (!filters.is_empty() || grouper.len() > 0) {
        replaced(
            replaced(
                replaced(
                    replaced(
                        replaced(
                            with_absent_solutions(
                                CAPACITY_SQL_WITH_BREAKDOWN@,
                                investment_present,
                                decommission_present,
                            ),
                            "{breakdown_case_conditions}"@,
                            breakdown_case_conditions_on_text(grouper, "bc.asset"@),
                        ),
                        "{breakdown_selects}"@,
                        breakdown_selects_text(grouper),
                    ),
                    "{breakdown_joins}"@,
                    breakdown_joins_text(grouper),
                ),
                "{filter_conditions}"@,
                capacity_filter_text(filters),
            ),
            "{breakdown_group_by}"@,
            breakdown_group_by_text(grouper),
        )
    } else {
        with_absent_solutions(CAPACITY_SQL@, investment_present, decommission_present)
    }
}

/// Builds the query for the capacity of the assets over the years.
/// `investment_present` and `decommission_present` tell whether the dataset has
/// the solution of the investments and of the decommissions; where it has not,
/// the query reads the solution as absent and leaves the dataset as it is.
pub fn capacity_query(
    filters: &HashMap<i32, Vec<i32>>,
    grouper: &[i32],
    enable_metadata: bool,
    investment_present: bool,
    decommission_present: bool,
) -> (sql: String)
    ensures
        sql@ == capacity_text(
            filters@,
            grouper@,
            enable_metadata,
            investment_present,
            decommission_present,
        ),
{
    let unfiltered: bool = filters.is_empty();
    if enable_metadata && (!unfiltered || grouper.len() > 0) {
        let conditions: Vec<char> = if unfiltered {
            Vec::new()
        } else {
            filter_conditions_on(filters, "af.asset")
        };
        let a: Vec<char> = fill(
            &fill_absent_solutions(
                chars_of(CAPACITY_SQL_WITH_BREAKDOWN),
                investment_present,
                decommission_present,
            ),
            "{breakdown_case_conditions}",
            &breakdown_case_conditions_on(grouper, "bc.asset"),
        );
        let b: Vec<char> = fill(
            &a,
            "{breakdown_selects}",
            &chars_of(build_breakdown_selects(grouper).as_str()),
        );
        let c: Vec<char> = fill(
            &b,
            "{breakdown_joins}",
            &chars_of(build_breakdown_joins(grouper).as_str()),
        );
        let d: Vec<char> = fill(&c, "{filter_conditions}", &conditions);
        string_of(
            &fill(&d, "{breakdown_group_by}", &chars_of(build_breakdown_group_by(grouper).as_str())),
        )
    } else {
        string_of(
            &fill_absent_solutions(chars_of(CAPACITY_SQL), investment_present, decommission_present),
        )
    }
}

} // verus!
