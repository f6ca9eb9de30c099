//! The query for the price of production: the dual values of the limits on the
//! outgoing flows, by the simple method, the compact method, or both.
use crate::metadata::{apply_carrier_filter, carrier_filter_text};
use crate::query_builder::{
    fill_breakdown, fill_filtered_assets, inner_resolution_query, resolution_query_text,
    with_breakdown, with_filtered_assets,
};
use crate::storage_price::{columns_for, group_columns};
use crate::text::{append_chars, append_str, decimal, string_of, unterminated};
use std::collections::HashMap;
use vstd::prelude::*;

verus! {

/// The dual values by the simple method.
pub const PRODUCTION_DATA_SIMPLE_SQL: &'static str = "
        SELECT
            CASE 
                {breakdown_case_conditions}
            ELSE 'Other'
            END AS asset,
            simple.year,
            simple.rep_period,
            simple.time_block_start,
            simple.time_block_end,
            simple.dual_max_output_flows_limit_simple_method as dual_value
            {breakdown_selects}
        FROM cons_capacity_outgoing_simple_method AS simple
        JOIN ({filtered_assets}) AS a ON simple.asset = a.asset
        {breakdown_joins}
        WHERE a.type = 'producer' OR a.type = 'storage' OR a.type = 'conversion'
        GROUP BY
        simple.year,
            simple.rep_period,
            simple.time_block_start,
            simple.time_block_end,
            dual_value
        {breakdown_group_by},
        CASE 
        {breakdown_case_conditions}
        ELSE 'Other'
        END
    ";

/// The dual values by the compact method.
pub const PRODUCTION_DATA_COMPACT_SQL: &'static str = "
        SELECT
            CASE 
                {breakdown_case_conditions}
            ELSE 'Other'
            END AS asset,
            compact.year,
            compact.rep_period,
            compact.time_block_start,
            compact.time_block_end,
            compact.dual_max_output_flows_limit_compact_method as dual_value
            {breakdown_selects}
        FROM cons_capacity_outgoing_compact_method AS compact
        JOIN ({filtered_assets}) AS a ON compact.asset = a.asset
        {breakdown_joins}
        WHERE a.type = 'producer' OR a.type = 'storage' OR a.type = 'conversion'
        GROUP BY
         compact.year,
            compact.rep_period,
            compact.time_block_start,
            compact.time_block_end,
            dual_value
        {breakdown_group_by},
        CASE 
        {breakdown_case_conditions}
        ELSE 'Other'
        END
    ";

/// Stands in for the values where the dataset has neither method: the blocks of
/// the simple method, each with the value zero.
pub const EMPTY_SQL: &'static str = "
                SELECT 
                CASE 
                {breakdown_case_conditions}
                ELSE 'Other'
                END AS asset,
                    simple.year,
                    simple.rep_period,
                    simple.time_block_start,
                    simple.time_block_end,
                    0 AS dual_value
                    {breakdown_selects}
                FROM cons_capacity_outgoing_simple_method AS simple
                JOIN ({filtered_assets}) AS a ON simple.asset = a.asset
                {breakdown_joins}
                GROUP BY
                simple.year,
                simple.rep_period,
                simple.time_block_start,
                simple.time_block_end,
                dual_value
                {breakdown_group_by},
                CASE 
                {breakdown_case_conditions}
                ELSE 'Other'
                END
                ";

/// Opens the table of the values.
pub const PRODUCTION_TABLE_HEAD: &'static str = "
                WITH production_table AS (
                    ";

/// Stands between the values of the two methods.
pub const PRODUCTION_TABLE_UNION: &'static str = "
                    UNION ALL
                    ";

/// Stands between the table and the series.
pub const PRODUCTION_SELECT: &'static str = "
                )
                SELECT * FROM (
                    ";

/// Closes the query.
pub const PRODUCTION_END: &'static str = "
                ) AS subquery
                ";

/// The values of the methods that the dataset has, for one carrier: those of the
/// simple method, then those of the compact method. Where it has neither, the
/// stand-in.
pub open spec fn production_values_text(simple_present: bool, compact_present: bool, carrier: Seq<char>) -> Seq<
    char,
> {
    if simple_present && compact_present {
        carrier_filter_text(PRODUCTION_DATA_SIMPLE_SQL@, carrier) + PRODUCTION_TABLE_UNION@
            + carrier_filter_text(PRODUCTION_DATA_COMPACT_SQL@, carrier)
    } else if compact_present {
        carrier_filter_text(PRODUCTION_DATA_COMPACT_SQL@, carrier)
    } else if simple_present {
        carrier_filter_text(PRODUCTION_DATA_SIMPLE_SQL@, carrier)
    } else {
        EMPTY_SQL@
    }
}

/// The text of the query for the price of production: the series of the values at
/// the chosen resolution, by bucket of the filtered assets. Where the dataset has
/// the values of neither method, it is the series of the stand-in, whose values
/// are zero.
pub open spec fn production_price_text(
    simple_present: bool,
    compact_present: bool,
    resolution: u32,
    carrier: Seq<char>,
    filters: Map<i32, Vec<i32>>,
    grouper: Seq<i32>,
    enable_metadata: bool,
) -> Seq<char> {
    with_filtered_assets(
        with_breakdown(
            PRODUCTION_TABLE_HEAD@ + production_values_text(
                simple_present,
                compact_present,
                carrier,
            ) + PRODUCTION_SELECT@ + unterminated(
                resolution_query_text(
                    "production_table"@,
                    "dual_value"@,
                    group_columns(enable_metadata, grouper),
                    "avg"@,
                    decimal(resolution as int),
                    false,
                ),
            ) + PRODUCTION_END@,
            grouper,
            "a.asset"@,
        ),
        enable_metadata,
        filters,
    )
}

/// The values of the methods that the dataset has.
fn production_values(simple_present: bool, compact_present: bool, carrier: &str) -> (out: Vec<char>)
    ensures
        out@ == production_values_text(simple_present, compact_present, carrier@),
{
    let mut text: Vec<char> = Vec::new();
    if simple_present && compact_present {
        append_str(&mut text, apply_carrier_filter(PRODUCTION_DATA_SIMPLE_SQL, carrier).as_str());
        append_str(&mut text, PRODUCTION_TABLE_UNION);
        append_str(&mut text, apply_carrier_filter(PRODUCTION_DATA_COMPACT_SQL, carrier).as_str());
    } else if compact_present {
        append_str(&mut text, apply_carrier_filter(PRODUCTION_DATA_COMPACT_SQL, carrier).as_str());
    } else if simple_present {
        append_str(&mut text, apply_carrier_filter(PRODUCTION_DATA_SIMPLE_SQL, carrier).as_str());
    } else {
        append_str(&mut text, EMPTY_SQL);
    }
    assert(text@ =~= production_values_text(simple_present, compact_present, carrier@));
    text
}

/// Builds the query for the price of production at windows of `resolution` hours.
/// `simple_present` and `compact_present` tell whether the dataset has the dual
/// values of the simple and of the compact method.
pub fn production_price_query(
    simple_present: bool,
    compact_present: bool,
    resolution: u32,
    carrier: &str,
    filters: &HashMap<i32, Vec<i32>>,
    grouper: &[i32],
    enable_metadata: bool,
) -> (sql: String)
    ensures
        sql@ == production_price_text(
            simple_present,
            compact_present,
            resolution,
            carrier@,
            filters@,
            grouper@,
            enable_metadata,
        ),
{
    let mut text: Vec<char> = Vec::new();
    let cols: Vec<Vec<char>> = columns_for(enable_metadata, grouper);
    let series: Vec<char> = inner_resolution_query(
        "production_table",
        "dual_value",
        &cols,
        "avg",
        resolution,
        false,
    );
    let values: Vec<char> = production_values(simple_present, compact_present, carrier);
    append_str(&mut text, PRODUCTION_TABLE_HEAD);
    append_chars(&mut text, &values);
    append_str(&mut text, PRODUCTION_SELECT);
    append_chars(&mut text, &series);
    append_str(&mut text, PRODUCTION_END);
    assert(text@ =~= PRODUCTION_TABLE_HEAD@ + values@ + PRODUCTION_SELECT@ + series@
        + PRODUCTION_END@);
    let with_buckets: Vec<char> = fill_breakdown(&text, grouper, "a.asset");
    string_of(&fill_filtered_assets(&with_buckets, enable_metadata, filters))
}

} // verus!
