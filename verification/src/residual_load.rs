//! The query for the supply: the flows into the consumers, by asset or by
//! breakdown bucket.
use crate::query_builder::{
    asset_column, breakdown_column_texts, breakdown_columns, breakdown_query,
    breakdown_query_text, filtered_query, filtered_query_text, resolution_query,
    resolution_query_text,
};
use crate::text::{append_decimal, decimal, string_of};
use std::collections::HashMap;
use vstd::prelude::*;

verus! {

/// The flows into the consumers.
pub const SUPPLY_SQL_WITHOUT_FILTERS: &'static str = "
  (
    SELECT
      f.from_asset AS asset,
      f.year,
      f.time_block_start,
      f.time_block_end,
      f.solution,
      f.rep_period,
      a.type
    FROM var_flow AS f
    JOIN asset AS a ON f.to_asset = a.asset
    WHERE a.type = 'consumer'
  ) AS supply_flows";

/// The flows into the consumers from the assets that pass the filters.
pub const SUPPLY_SQL_WITH_FILTERS: &'static str = "
  (
    SELECT DISTINCT
      f.from_asset AS asset,
      f.year,
      f.time_block_start,
      f.time_block_end,
      f.solution,
      f.rep_period,
      a.type
    FROM var_flow AS f
    JOIN asset AS a ON f.to_asset = a.asset
    JOIN asset_category AS ac ON f.from_asset = ac.asset
    WHERE a.type = 'consumer'
      {filter_conditions} 
  ) AS supply_flows";

/// The flows into the consumers from the assets that pass the filters, summed by
/// breakdown bucket.
pub const SUPPLY_SQL_WITH_FILTERS_AND_BREAKDOWN: &'static str = "
  (
    -- The sql above:
    WITH base_flows AS (
      SELECT DISTINCT
        f.from_asset,
        f.year,
        f.time_block_start,
        f.time_block_end,
        f.solution,
        f.rep_period
      FROM var_flow AS f
      JOIN asset AS a ON f.to_asset = a.asset
      JOIN asset_category AS ac ON f.from_asset = ac.asset
      WHERE a.type = 'consumer'
        {filter_conditions}
    )
    SELECT
      -- Group by breakdown categories and include 'Other' category
      CASE 
        {breakdown_case_conditions}
        ELSE 'Other'
      END AS asset,
      bf.year,
      bf.time_block_start,
      bf.time_block_end,
      SUM(bf.solution) AS solution,
      bf.rep_period,
      'consumer' AS type{breakdown_selects}
    FROM base_flows bf
    {breakdown_joins}
    GROUP BY 
      CASE 
        {breakdown_case_conditions}
        ELSE 'Other'
      END,
      bf.year,
      bf.time_block_start,
      bf.time_block_end,
      bf.rep_period{breakdown_group_by}
  ) AS supply_flows";

/// The text of the query for the supply: the sum of the flows at the chosen
/// resolution. With the category tables in use the assets are filtered, and with
/// a breakdown they are put into its buckets.
pub open spec fn supply_text(
    resolution: u32,
    filters: Map<i32, Vec<i32>>,
    grouper: Seq<i32>,
    enable_metadata: bool,
) -> Seq<char> {
    if enable_metadata && grouper.len() > 0 {
        breakdown_query_text(
            SUPPLY_SQL_WITH_FILTERS_AND_BREAKDOWN@,
            "solution"@,
            breakdown_column_texts(grouper),
            "sum"@,
            decimal(resolution as int),
            filters,
            grouper,
        )
    } else if enable_metadata {
        filtered_query_text(
            SUPPLY_SQL_WITH_FILTERS@,
            "solution"@,
            seq!["asset"@],
            "sum"@,
            decimal(resolution as int),
            filters,
        )
    } else {
        resolution_query_text(
            SUPPLY_SQL_WITHOUT_FILTERS@,
            "solution"@,
            seq!["asset"@],
            "sum"@,
            decimal(resolution as int),
            false,
        )
    }
}

/// Builds the query for the supply at windows of `resolution` hours.
pub fn supply_query(
    resolution: u32,
    filters: &HashMap<i32, Vec<i32>>,
    grouper: &[i32],
    enable_metadata: bool,
) -> (sql: String)
    ensures
        sql@ == supply_text(resolution, filters@, grouper@, enable_metadata),
{
    let mut digits: Vec<char> = Vec::new();
    append_decimal(&mut digits, resolution as i64);
    assert(digits@ =~= decimal(resolution as int));
    let width: String = string_of(&digits);
    if enable_metadata && grouper.len() > 0 {
        string_of(
            &breakdown_query(
                SUPPLY_SQL_WITH_FILTERS_AND_BREAKDOWN,
                "solution",
                &breakdown_columns(grouper),
                "sum",
                width.as_str(),
                filters,
                grouper,
            ),
        )
    } else if enable_metadata {
        string_of(
            &filtered_query(
                SUPPLY_SQL_WITH_FILTERS,
                "solution",
                &asset_column(),
                "sum",
                width.as_str(),
                filters,
            ),
        )
    } else {
        string_of(
            &resolution_query(
                SUPPLY_SQL_WITHOUT_FILTERS,
                "solution",
                &asset_column(),
                "sum",
                width.as_str(),
                false,
            ),
        )
    }
}

} // verus!
