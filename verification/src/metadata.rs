//! Queries on the assets, tables and categories of a dataset, and the restriction of
//! a query to the assets of one carrier.
use crate::connection::{first_failure, lemma_all_mapped, run_query_row, QueryEvent};
use crate::text::{append_chars, append_str, chars_equal, chars_of, fill, replaced, string_of};
use vstd::prelude::*;

verus! {

/// Lists the assets.
pub const ASSET_SQL: &'static str = "SELECT asset FROM asset;";

/// Lists the tables.
pub const TABLES_SQL: &'static str = "SHOW TABLES";

/// Lists the names of the columns of the table whose name replaces `{table}`. A
/// table that the dataset lacks has no columns.
pub const TABLE_INFO_SQL: &'static str =
    "SELECT column_name AS name FROM information_schema.columns WHERE table_name = '{table}';";

/// Lists the carriers of the flows.
pub const CARRIER_SQL: &'static str = "SELECT DISTINCT carrier FROM flow;";

/// Gives each asset the carriers of the flows that leave it.
pub const INFER_CARRIER_SQL_FROM_OUTGOING_FLOWS: &'static str = "
SELECT DISTINCT
a.asset,
f.carrier
FROM asset AS a
JOIN flow AS f
ON f.from_asset = a.asset
";

/// Lists the milestone years.
pub const YEARS_SQL: &'static str = "
    SELECT DISTINCT year
    FROM year_data AS y
    WHERE y.is_milestone = true
    ORDER BY year;
";

/// Lists the category nodes, the lowest level first.
pub const CATEGORY_SQL: &'static str = "SELECT id, name, parent_id, level FROM category ORDER BY level;";

/// Tells whether the two category tables exist.
pub const HAS_META_SQL: &'static str = "SELECT EXISTS (
    SELECT 1
    FROM information_schema.tables
    WHERE table_name = 'category'
) AS has_category,
EXISTS (
    SELECT 1
    FROM information_schema.tables
    WHERE table_name = 'asset_category'
) AS has_asset_category;";

/// Opens the wrapping query, up to the carrier's name.
pub const CARRIER_SELECT_HEAD: &'static str = "
            SELECT
                s.*,
                '";

/// From the carrier's name to the wrapped query.
pub const CARRIER_SELECT_FROM: &'static str = "' AS carrier
            FROM (
                ";

/// Closes the wrapping query where every carrier is kept.
pub const CARRIER_SELECT_END: &'static str = "
            ) AS s
            ";

/// From the wrapped query to the query that infers the carriers.
pub const CARRIER_WHERE_HEAD: &'static str = "
            ) AS s
            WHERE s.asset IN (
                SELECT asset FROM (";

/// From the inferring query to the carrier's name.
pub const CARRIER_WHERE_NAME: &'static str = ") WHERE carrier = '";

/// Closes the wrapping query where one carrier is kept.
pub const CARRIER_WHERE_END: &'static str = "'
            )
            ";

/// The text that `apply_carrier_filter` returns: `base_sql` wrapped in a query that
/// adds the carrier as a column and, unless the carrier is `all`, keeps the assets
/// that have an outgoing flow of it.
pub open spec fn carrier_filter_text(base_sql: Seq<char>, carrier: Seq<char>) -> Seq<char> {
    let head = CARRIER_SELECT_HEAD@ + carrier + CARRIER_SELECT_FROM@ + base_sql;
    if carrier == "all"@ {
        head + CARRIER_SELECT_END@
    } else {
        head + CARRIER_WHERE_HEAD@ + INFER_CARRIER_SQL_FROM_OUTGOING_FLOWS@ + CARRIER_WHERE_NAME@
            + carrier + CARRIER_WHERE_END@
    }
}

/// Wraps `base_sql` so that its rows carry `carrier` as a column and, unless the
/// carrier is `all`, only the assets with an outgoing flow of that carrier stay.
pub fn apply_carrier_filter(base_sql: &str, carrier: &str) -> (sql: String)
    ensures
        sql@ == carrier_filter_text(base_sql@, carrier@),
{
    let name: Vec<char> = chars_of(carrier);
    let mut out: Vec<char> = Vec::new();
    append_str(&mut out, CARRIER_SELECT_HEAD);
    append_chars(&mut out, &name);
    append_str(&mut out, CARRIER_SELECT_FROM);
    append_str(&mut out, base_sql);
    if chars_equal(&name, &chars_of("all")) {
        append_str(&mut out, CARRIER_SELECT_END);
    } else {
        append_str(&mut out, CARRIER_WHERE_HEAD);
        append_str(&mut out, INFER_CARRIER_SQL_FROM_OUTGOING_FLOWS);
        append_str(&mut out, CARRIER_WHERE_NAME);
        append_chars(&mut out, &name);
        append_str(&mut out, CARRIER_WHERE_END);
    }
    assert(out@ =~= carrier_filter_text(base_sql@, carrier@));
    string_of(&out)
}

/// Builds the query that lists the names of the columns of `table_name`. For a
/// table that the dataset lacks it lists none, and does not fail.
pub fn table_info_query(table_name: &str) -> (sql: String)
    ensures
        sql@ == replaced(TABLE_INFO_SQL@, "{table}"@, table_name@),
{
    string_of(&fill(&chars_of(TABLE_INFO_SQL), "{table}", &chars_of(table_name)))
}

/// Whether a table has the column `column_name`, given what the dataset reported
/// for the query of `table_info_query`. A table without columns, as a table that
/// the dataset lacks, does not have the column: the answer is `false`, not an
/// error. A failure of the dataset comes back as its message, and so does a
/// name that could not be read.
pub fn column_in_table(event: QueryEvent<Vec<Result<String, String>>>, column_name: &str) -> (found:
    Result<bool, String>)
    ensures
        match event {
            QueryEvent::ParseFailed(cause) => found is Err && found->Err_0@
                == "error parsing query: '"@ + cause@ + "'"@,
            QueryEvent::ExecutionFailed(cause) => found is Err && found->Err_0@
                == "error executing query: '"@ + cause@ + "'"@,
            QueryEvent::Fetched(rows) => match first_failure(rows@) {
                Some(cause) => found is Err && found->Err_0@ == "error mapping row: '"@ + cause@
                    + "'"@,
                None => found == Ok::<bool, String>(
                    exists|i: int|
                        0 <= i < rows@.len() && rows@[i] is Ok && (#[trigger] rows@[i])->Ok_0@
                            == column_name@,
                ),
            },
        },
{
    let ghost asked = event;
    match run_query_row(event) {
        Err(message) => Err(message),
        Ok(names) => {
            proof {
                if asked is Fetched {
                    lemma_all_mapped(asked->Fetched_0@);
                }
            }
            let found: bool = check_column_in_table(names.as_slice(), column_name);
            proof {
                let rows = asked->Fetched_0@;
                if found {
                    let i = choose|i: int| 0 <= i < names@.len() && names@[i]@ == column_name@;
                    assert(rows[i] == Ok::<String, String>(names@[i]));
                }
                if exists|i: int|
                    0 <= i < rows.len() && rows[i] is Ok && (#[trigger] rows[i])->Ok_0@
                        == column_name@ {
                    let i = choose|i: int|
                        0 <= i < rows.len() && rows[i] is Ok && (#[trigger] rows[i])->Ok_0@
                            == column_name@;
                    assert(rows[i] == Ok::<String, String>(names@[i]));
                    assert(names@[i]@ == column_name@);
                }
            }
            Ok(found)
        },
    }
}

/// Whether a table has the column `column_name`, given the names of its columns
/// as the query of `table_info_query` returns them.
pub fn check_column_in_table(column_names: &[String], column_name: &str) -> (found: bool)
    ensures
        found == exists|i: int| 0 <= i < column_names@.len() && column_names@[i]@ == column_name@,
{
    let wanted: Vec<char> = chars_of(column_name);
    let mut i: usize = 0;
    while i < column_names.len()
        invariant
            i <= column_names.len(),
            wanted@ == column_name@,
            forall|k: int| 0 <= k < i ==> column_names@[k]@ != column_name@,
        decreases column_names.len() - i,
    {
        if chars_equal(&chars_of(column_names[i].as_str()), &wanted) {
            return true;
        }
        i += 1;
    }
    false
}

} // verus!
