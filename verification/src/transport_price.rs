//! The query for the price of transport: the dual values of the limits on the
//! transport flows of one carrier.
use crate::query_builder::{inner_resolution_query, resolution_query_text};
use crate::series::{error_text, EngineError};
use crate::text::{
    append_chars, append_str, chars_equal, chars_of, decimal, string_of, texts_of, unterminated,
};
use vstd::prelude::*;

verus! {

/// Lists the carriers that are transported.
pub const TRANSPORT_CARRIER_SQL: &'static str = "
    SELECT DISTINCT carrier
    FROM flow
    WHERE is_transport = TRUE
    ORDER BY carrier;
    ";

/// The name of the column of the dual values, up to the kind of the limit.
pub const DUAL_COLUMN_HEAD: &'static str = "dual_";

/// The name of the column of the dual values, behind the kind of the limit.
pub const DUAL_COLUMN_END: &'static str = "_transport_flow_limit_simple_method";

/// The condition that keeps one carrier, up to its name.
pub const CARRIER_WHERE_HEAD: &'static str = "WHERE f.carrier = '";

/// The condition that keeps one carrier, behind its name.
pub const CARRIER_WHERE_END: &'static str = "'";

/// The dual values of the transport flows, up to the value.
pub const TRANSPORT_VALUES_HEAD: &'static str = "
        SELECT 
            f.carrier,
            tr.year,
            tr.rep_period,
            tr.time_block_start,
            tr.time_block_end,
            ";

/// The value that stands in where the dataset lacks the dual values.
pub const TRANSPORT_ZERO: &'static str = "0";

/// The dual values of the transport flows, between the value and the condition on
/// the carrier.
pub const TRANSPORT_VALUES_FROM: &'static str = " AS dual_value
        FROM cons_transport_flow_limit_simple_method AS tr
        JOIN flow AS f ON f.from_asset = tr.from_asset AND f.to_asset = tr.to_asset
        ";

/// The dual values of the transport flows, behind the condition on the carrier.
pub const TRANSPORT_VALUES_END: &'static str = "
    ";

/// Opens the table of the values.
pub const TRANSPORT_TABLE_HEAD: &'static str = "
    WITH transportation_table AS (
    ";

/// Stands between the table and the series.
pub const TRANSPORT_SELECT: &'static str = "
    )
    SELECT * FROM (
        ";

/// Closes the query.
pub const TRANSPORT_END: &'static str = "
    ) AS subquery
    ";

/// The name of the column that holds the dual values of one kind of limit.
pub open spec fn dual_column_text(column_type: Seq<char>) -> Seq<char> {
    DUAL_COLUMN_HEAD@ + column_type + DUAL_COLUMN_END@
}

/// The condition on the carrier: none for `all`, else that the flow is of it.
pub open spec fn carrier_condition_text(carrier: Seq<char>) -> Seq<char> {
    if carrier == "all"@ {
        Seq::empty()
    } else {
        CARRIER_WHERE_HEAD@ + carrier + CARRIER_WHERE_END@
    }
}

/// The values that the series is computed on: the blocks of the transport flows
/// of the carrier with their dual values, or with zero where the dataset lacks
/// the dual values.
pub open spec fn transport_values_text(
    dual_present: bool,
    carrier: Seq<char>,
    column_type: Seq<char>,
) -> Seq<char> {
    TRANSPORT_VALUES_HEAD@ + (if dual_present {
        dual_column_text(column_type)
    } else {
        TRANSPORT_ZERO@
    }) + TRANSPORT_VALUES_FROM@ + carrier_condition_text(carrier) + TRANSPORT_VALUES_END@
}

/// The text of the query for the price of transport: the average of the dual
/// values per carrier at the chosen resolution. Where the dataset lacks the
/// values, it is the same series on values that are zero.
pub open spec fn transportation_price_text(
    dual_present: bool,
    carrier: Seq<char>,
    resolution: u32,
    column_type: Seq<char>,
) -> Seq<char> {
    TRANSPORT_TABLE_HEAD@ + transport_values_text(dual_present, carrier, column_type)
        + TRANSPORT_SELECT@ + unterminated(
        resolution_query_text(
            "transportation_table"@,
            "dual_value"@,
            seq!["carrier"@],
            "avg"@,
            decimal(resolution as int),
            false,
        ),
    ) + TRANSPORT_END@
}

/// Builds the name of the column that holds the dual values of one kind of limit.
pub fn transport_dual_column(column_type: &str) -> (name: String)
    ensures
        name@ == dual_column_text(column_type@),
{
    let mut text: Vec<char> = Vec::new();
    append_str(&mut text, DUAL_COLUMN_HEAD);
    append_str(&mut text, column_type);
    append_str(&mut text, DUAL_COLUMN_END);
    assert(text@ =~= dual_column_text(column_type@));
    string_of(&text)
}

/// The values of the transport flows of one carrier.
fn transport_values(dual_present: bool, carrier: &str, column_type: &str) -> (out: Vec<char>)
    ensures
        out@ == transport_values_text(dual_present, carrier@, column_type@),
{
    let name: Vec<char> = chars_of(carrier);
    let mut text: Vec<char> = Vec::new();
    append_str(&mut text, TRANSPORT_VALUES_HEAD);
    if dual_present {
        append_str(&mut text, transport_dual_column(column_type).as_str());
    } else {
        append_str(&mut text, TRANSPORT_ZERO);
    }
    append_str(&mut text, TRANSPORT_VALUES_FROM);
    if !chars_equal(&name, &chars_of("all")) {
        append_str(&mut text, CARRIER_WHERE_HEAD);
        append_chars(&mut text, &name);
        append_str(&mut text, CARRIER_WHERE_END);
    }
    append_str(&mut text, TRANSPORT_VALUES_END);
    assert(text@ =~= transport_values_text(dual_present, carrier@, column_type@));
    text
}

/// Builds the query for the price of transport at windows of `resolution` hours.
/// `dual_present` tells whether the dataset has the column of the dual values.
/// The year is passed once.
pub fn transportation_price_query(
    dual_present: bool,
    carrier: &str,
    resolution: u32,
    column_type: &str,
) -> (sql: String)
    ensures
        sql@ == transportation_price_text(dual_present, carrier@, resolution, column_type@),
{
    let mut text: Vec<char> = Vec::new();
    let mut cols: Vec<Vec<char>> = Vec::new();
    cols.push(chars_of("carrier"));
    assert(texts_of(cols@) =~= seq!["carrier"@]);
    let series: Vec<char> = inner_resolution_query(
        "transportation_table",
        "dual_value",
        &cols,
        "avg",
        resolution,
        false,
    );
    let values: Vec<char> = transport_values(dual_present, carrier, column_type);
    append_str(&mut text, TRANSPORT_TABLE_HEAD);
    append_chars(&mut text, &values);
    append_str(&mut text, TRANSPORT_SELECT);
    append_chars(&mut text, &series);
    append_str(&mut text, TRANSPORT_END);
    assert(text@ =~= TRANSPORT_TABLE_HEAD@ + values@ + TRANSPORT_SELECT@ + series@
        + TRANSPORT_END@);
    string_of(&text)
}

/// What the request for the price of transport comes to once its rows are
/// fetched: with no row it is refused, with a message that names the dataset and
/// the year; with rows it stands.
pub fn require_rows(fetched_rows: usize, dataset: &str, year: u32) -> (checked: Result<(), String>)
    ensures
        fetched_rows == 0 ==> checked is Err && checked->Err_0@ == error_text(
            EngineError::NoData,
            dataset@,
            year,
        ),
        fetched_rows > 0 ==> checked == Ok::<(), String>(()),
{
    if fetched_rows == 0 {
        Err(EngineError::NoData.message(dataset, year))
    } else {
        Ok(())
    }
}

} // verus!
