//! The query for the price of storage: the dual values of the storage balance, of
//! the storage within representative periods, of the storage over the clustered
//! year, or of both together.
use crate::metadata::{apply_carrier_filter, carrier_filter_text};
use crate::pipeline::{parse_selection, Selection};
use crate::query_builder::{
    asset_column, breakdown_column_texts, breakdown_columns, fill_breakdown,
    fill_filtered_assets, inner_resolution_query, inner_resolution_query_both,
    resolution_query_both_text, resolution_query_text, with_breakdown, with_filtered_assets,
};
use crate::text::{append_chars, append_str, chars_of, decimal, string_of, texts_of, unterminated};
use std::collections::HashMap;
use vstd::prelude::*;

verus! {

/// The dual values of the storage balance within representative periods.
pub const SHORT_TERM_SQL: &'static str = "
                SELECT
                CASE 
                {breakdown_case_conditions}
                ELSE 'Other'
                END AS asset,
                    year,
                    rep_period,
                    time_block_start,
                    time_block_end,
                    dual_balance_storage_rep_period AS dual_value
                    {breakdown_selects}
                FROM cons_balance_storage_rep_period AS st
                JOIN ({filtered_assets}) AS a ON st.asset = a.asset
                {breakdown_joins}
                GROUP BY
                st.year,
                st.rep_period,
                st.time_block_start,
                st.time_block_end,
                dual_value
                {breakdown_group_by},
                CASE 
                {breakdown_case_conditions}
                ELSE 'Other'
                END";

/// The dual values of the storage balance over the clustered year.
pub const LONG_TERM_SQL: &'static str = "
                SELECT 
                CASE 
                {breakdown_case_conditions}
                ELSE 'Other'
                END AS asset,
                    year,
                    period_block_start,
                    period_block_end,
                    dual_balance_storage_over_clustered_year AS dual_value
                    {breakdown_selects}
                FROM cons_balance_storage_over_clustered_year AS st_cl
                JOIN ({filtered_assets}) AS a ON st_cl.asset = a.asset
                {breakdown_joins}
                GROUP BY
                st_cl.year,
                st_cl.period_block_start,
                st_cl.period_block_end,
                dual_value
                {breakdown_group_by},
                CASE 
                {breakdown_case_conditions}
                ELSE 'Other'
                END
                ";

/// Stands in for the short-term values where the dataset lacks them: the blocks
/// of the storage balance, each with the value zero.
pub const EMPTY_SHORT_TERM_SQL: &'static str = "
                SELECT 
                    CASE 
                    {breakdown_case_conditions}
                    ELSE 'Other'
                    END AS asset,
                    st.year,
                    st.rep_period,
                    st.time_block_start,
                    st.time_block_end,
                    0 AS dual_value
                    {breakdown_selects}
                FROM cons_balance_storage_rep_period AS st
                JOIN ({filtered_assets}) AS a ON st.asset = a.asset
                {breakdown_joins}
                GROUP BY
                st.year,
                st.rep_period,
                st.time_block_start,
                st.time_block_end,
                dual_value
                {breakdown_group_by},
                CASE 
                {breakdown_case_conditions}
                ELSE 'Other'
                END
                ";

/// Stands in for the long-term values where the dataset lacks them: the blocks
/// of the storage balance over the clustered year, each with the value zero.
pub const EMPTY_LONG_TERM_SQL: &'static str = "
                SELECT 
                CASE 
                {breakdown_case_conditions}
                ELSE 'Other'
                END AS asset,
                    st_cl.year,
                    st_cl.period_block_start,
                    st_cl.period_block_end,
                    0 AS dual_value
                    {breakdown_selects}
                FROM cons_balance_storage_over_clustered_year AS st_cl
                JOIN ({filtered_assets}) AS a ON st_cl.asset = a.asset
                {breakdown_joins}
                GROUP BY
                st_cl.year,
                st_cl.period_block_start,
                st_cl.period_block_end,
                dual_value
                {breakdown_group_by},
                CASE 
                {breakdown_case_conditions}
                ELSE 'Other'
                END
                ";

/// Opens the table of one series.
pub const STORAGE_TABLE_HEAD: &'static str = " WITH storage_table AS (";

/// Closes the table of one series.
pub const STORAGE_TABLE_END: &'static str = ")";

/// Opens the tables of both series.
pub const STORAGE_TABLES_HEAD: &'static str = "
            WITH storage_table AS (
                ";

/// Stands between the tables of both series.
pub const STORAGE_TABLES_NEXT: &'static str = "
            ), storage_table_1 AS (
                ";

/// Closes the tables of both series.
pub const STORAGE_TABLES_END: &'static str = "
            )";

/// Stands before the tables of a wrapped query.
pub const WRAP_HEAD: &'static str = "
    ";

/// Stands between the tables and the series of a wrapped query.
pub const WRAP_SELECT: &'static str = "
    SELECT * FROM (
        ";

/// Closes a wrapped query.
pub const WRAP_END: &'static str = "
    ) AS subquery
    ";

/// A query with the number of times that the year is passed to it.
#[derive(Debug, PartialEq, Eq)]
pub struct QueryPlan {
    pub sql: String,
    pub year_arguments: usize,
}

/// The short-term values of one carrier, or their stand-in where the dataset
/// lacks them.
pub open spec fn short_term_text(present: bool, carrier: Seq<char>) -> Seq<char> {
    if present {
        carrier_filter_text(SHORT_TERM_SQL@, carrier)
    } else {
        EMPTY_SHORT_TERM_SQL@
    }
}

/// The long-term values of one carrier, or their stand-in where the dataset lacks
/// them.
pub open spec fn long_term_text(present: bool, carrier: Seq<char>) -> Seq<char> {
    if present {
        carrier_filter_text(LONG_TERM_SQL@, carrier)
    } else {
        EMPTY_LONG_TERM_SQL@
    }
}

/// The tables that the selected series read.
pub open spec fn storage_tables_text(
    selection: Selection,
    short_term: Seq<char>,
    long_term: Seq<char>,
) -> Seq<char> {
    match selection {
        Selection::ShortTerm => STORAGE_TABLE_HEAD@ + short_term + STORAGE_TABLE_END@,
        Selection::LongTerm => STORAGE_TABLE_HEAD@ + long_term + STORAGE_TABLE_END@,
        Selection::Both => STORAGE_TABLES_HEAD@ + short_term + STORAGE_TABLES_NEXT@ + long_term
            + STORAGE_TABLES_END@,
    }
}

/// The columns by which the series is grouped: the buckets of the breakdown where
/// the category tables are in use and there is one, else the asset.
pub open spec fn group_columns(enable_metadata: bool, grouper: Seq<i32>) -> Seq<Seq<char>> {
    if enable_metadata && grouper.len() > 0 {
        breakdown_column_texts(grouper)
    } else {
        seq!["asset"@]
    }
}

/// The query on the selected series: the average of the dual values at the chosen
/// resolution, without its last semicolon.
pub open spec fn storage_series_text(selection: Selection, cols: Seq<Seq<char>>, resolution: u32) -> Seq<
    char,
> {
    unterminated(
        match selection {
            Selection::ShortTerm => resolution_query_text(
                "storage_table"@,
                "dual_value"@,
                cols,
                "avg"@,
                decimal(resolution as int),
                false,
            ),
            Selection::LongTerm => resolution_query_text(
                "storage_table"@,
                "dual_value"@,
                cols,
                "avg"@,
                decimal(resolution as int),
                true,
            ),
            Selection::Both => resolution_query_both_text(
                "storage_table"@,
                "storage_table_1"@,
                "dual_value"@,
                cols,
                "avg"@,
                decimal(resolution as int),
            ),
        },
    )
}

/// The text of the query for the price of storage.
pub open spec fn storage_price_text(
    short_present: bool,
    long_present: bool,
    resolution: u32,
    selection: Selection,
    carrier: Seq<char>,
    filters: Map<i32, Vec<i32>>,
    grouper: Seq<i32>,
    enable_metadata: bool,
) -> Seq<char> {
    with_filtered_assets(
        with_breakdown(
            WRAP_HEAD@ + storage_tables_text(
                selection,
                short_term_text(short_present, carrier),
                long_term_text(long_present, carrier),
            ) + WRAP_SELECT@ + storage_series_text(
                selection,
                group_columns(enable_metadata, grouper),
                resolution,
            ) + WRAP_END@,
            grouper,
            "a.asset"@,
        ),
        enable_metadata,
        filters,
    )
}

/// The columns by which a series is grouped.
pub(crate) fn columns_for(enable_metadata: bool, grouper: &[i32]) -> (columns: Vec<Vec<char>>)
    ensures
        texts_of(columns@) == group_columns(enable_metadata, grouper@),
{
    if enable_metadata && grouper.len() > 0 {
        breakdown_columns(grouper)
    } else {
        asset_column()
    }
}

/// A series: its values for one carrier, or the stand-in.
fn series_values(present: bool, values: &'static str, stand_in: &'static str, carrier: &str) -> (out: Vec<
    char,
>)
    ensures
        out@ == if present {
            carrier_filter_text(values@, carrier@)
        } else {
            stand_in@
        },
{
    if present {
        chars_of(apply_carrier_filter(values, carrier).as_str())
    } else {
        chars_of(stand_in)
    }
}

/// The tables that the selected series read.
fn storage_tables(selection: Selection, short_term: &Vec<char>, long_term: &Vec<char>) -> (out: Vec<
    char,
>)
    ensures
        out@ == storage_tables_text(selection, short_term@, long_term@),
{
    let mut text: Vec<char> = Vec::new();
    match selection {
        Selection::ShortTerm => {
            append_str(&mut text, STORAGE_TABLE_HEAD);
            append_chars(&mut text, short_term);
            append_str(&mut text, STORAGE_TABLE_END);
        },
        Selection::LongTerm => {
            append_str(&mut text, STORAGE_TABLE_HEAD);
            append_chars(&mut text, long_term);
            append_str(&mut text, STORAGE_TABLE_END);
        },
        Selection::Both => {
            append_str(&mut text, STORAGE_TABLES_HEAD);
            append_chars(&mut text, short_term);
            append_str(&mut text, STORAGE_TABLES_NEXT);
            append_chars(&mut text, long_term);
            append_str(&mut text, STORAGE_TABLES_END);
        },
    }
    assert(text@ =~= storage_tables_text(selection, short_term@, long_term@));
    text
}

/// The query on the selected series.
fn storage_series(selection: Selection, cols: &Vec<Vec<char>>, resolution: u32) -> (out: Vec<char>)
    ensures
        out@ == storage_series_text(selection, texts_of(cols@), resolution),
{
    match selection {
        Selection::ShortTerm => inner_resolution_query(
            "storage_table",
            "dual_value",
            cols,
            "avg",
            resolution,
            false,
        ),
        Selection::LongTerm => inner_resolution_query(
            "storage_table",
            "dual_value",
            cols,
            "avg",
            resolution,
            true,
        ),
        Selection::Both => inner_resolution_query_both(
            "storage_table",
            "storage_table_1",
            "dual_value",
            cols,
            "avg",
            resolution,
        ),
    }
}

/// The series inside the query that selects all of it, behind its tables.
fn wrap_series(tables: &Vec<char>, series: &Vec<char>) -> (out: Vec<char>)
    ensures
        out@ == WRAP_HEAD@ + tables@ + WRAP_SELECT@ + series@ + WRAP_END@,
{
    let mut text: Vec<char> = Vec::new();
    append_str(&mut text, WRAP_HEAD);
    append_chars(&mut text, tables);
    append_str(&mut text, WRAP_SELECT);
    append_chars(&mut text, series);
    append_str(&mut text, WRAP_END);
    assert(text@ =~= WRAP_HEAD@ + tables@ + WRAP_SELECT@ + series@ + WRAP_END@);
    text
}

/// The query for the price of storage of a known selection.
fn storage_price(
    short_present: bool,
    long_present: bool,
    resolution: u32,
    selection: Selection,
    carrier: &str,
    filters: &HashMap<i32, Vec<i32>>,
    grouper: &[i32],
    enable_metadata: bool,
) -> (sql: String)
    ensures
        sql@ == storage_price_text(
            short_present,
            long_present,
            resolution,
            selection,
            carrier@,
            filters@,
            grouper@,
            enable_metadata,
        ),
{
    let short_term: Vec<char> = series_values(
        short_present,
        SHORT_TERM_SQL,
        EMPTY_SHORT_TERM_SQL,
        carrier,
    );
    let long_term: Vec<char> = series_values(
        long_present,
        LONG_TERM_SQL,
        EMPTY_LONG_TERM_SQL,
        carrier,
    );
    let cols: Vec<Vec<char>> = columns_for(enable_metadata, grouper);
    let tables: Vec<char> = storage_tables(selection, &short_term, &long_term);
    let series: Vec<char> = storage_series(selection, &cols, resolution);
    let text: Vec<char> = wrap_series(&tables, &series);
    let with_buckets: Vec<char> = fill_breakdown(&text, grouper, "a.asset");
    string_of(&fill_filtered_assets(&with_buckets, enable_metadata, filters))
}

/// Reads the storage type of a request: `short-term`, `long-term` or `both`; any
/// other is refused. It needs nothing from the dataset, so a request with
/// another type can be refused before the dataset is asked anything.
pub fn storage_selection(storage_type: &str) -> (selection: Result<Selection, String>)
    ensures
        storage_type@ == "short-term"@ ==> selection == Ok::<Selection, String>(
            Selection::ShortTerm,
        ),
        storage_type@ == "long-term"@ ==> selection == Ok::<Selection, String>(
            Selection::LongTerm,
        ),
        storage_type@ == "both"@ ==> selection == Ok::<Selection, String>(Selection::Both),
        storage_type@ != "short-term"@ && storage_type@ != "long-term"@ && storage_type@
            != "both"@ ==> selection is Err && selection->Err_0@ == "Invalid storage type"@,
{
    match parse_selection(storage_type) {
        Err(_) => Err(string_of(&chars_of("Invalid storage type"))),
        Ok(selection) => Ok(selection),
    }
}

/// Builds the query for the price of storage at windows of `resolution` hours.
/// `short_present` and `long_present` tell whether the dataset has the dual values
/// of the storage within representative periods and over the clustered year; a
/// series whose values are missing is computed on a stand-in. `storage_type` is
/// `short-term`, `long-term` or `both`; any other is refused. The year is passed
/// once per series.
pub fn storage_price_query(
    short_present: bool,
    long_present: bool,
    resolution: u32,
    storage_type: &str,
    carrier: &str,
    filters: &HashMap<i32, Vec<i32>>,
    grouper: &[i32],
    enable_metadata: bool,
) -> (plan: Result<QueryPlan, String>)
    ensures
        storage_type@ != "short-term"@ && storage_type@ != "long-term"@ && storage_type@
            != "both"@ ==> plan is Err && plan->Err_0@ == "Invalid storage type"@,
        storage_type@ == "short-term"@ ==> plan is Ok && plan->Ok_0.year_arguments == 1
            && plan->Ok_0.sql@ == storage_price_text(
            short_present,
            long_present,
            resolution,
            Selection::ShortTerm,
            carrier@,
            filters@,
            grouper@,
            enable_metadata,
        ),
        storage_type@ == "long-term"@ ==> plan is Ok && plan->Ok_0.year_arguments == 1
            && plan->Ok_0.sql@ == storage_price_text(
            short_present,
            long_present,
            resolution,
            Selection::LongTerm,
            carrier@,
            filters@,
            grouper@,
            enable_metadata,
        ),
        storage_type@ == "both"@ ==> plan is Ok && plan->Ok_0.year_arguments == 2
            && plan->Ok_0.sql@ == storage_price_text(
            short_present,
            long_present,
            resolution,
            Selection::Both,
            carrier@,
            filters@,
            grouper@,
            enable_metadata,
        ),
{
    match storage_selection(storage_type) {
        Err(message) => Err(message),
        Ok(selection) => {
            let sql: String = storage_price(
                short_present,
                long_present,
                resolution,
                selection,
                carrier,
                filters,
                grouper,
                enable_metadata,
            );
            let year_arguments: usize = match selection {
                Selection::Both => 2,
                _ => 1,
            };
            Ok(QueryPlan { sql, year_arguments })
        },
    }
}

} // verus!
