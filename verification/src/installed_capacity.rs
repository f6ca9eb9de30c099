//! The queries for the installed capacity of one asset: over a span of years, and
//! in one year.
use crate::text::{append_decimal, chars_of, decimal, fill, replaced, string_of};
use vstd::prelude::*;

verus! {

/// The installed capacity of the asset `{asset}` in each year from `{start_year}`
/// to `{end_year}` in which it is commissioned.
pub const CAPACITY_OVER_PERIOD_SQL: &'static str = "
    WITH years AS (
    SELECT generate_series AS year FROM generate_series({start_year}, {end_year})
    ),
    cum_inv AS (
    SELECT milestone_year, solution
        FROM var_assets_investment
    WHERE asset = '{asset}'
    ),
    cum_dec AS (
    SELECT milestone_year, solution
        FROM var_assets_decommission
    WHERE asset = '{asset}'
    ),
    asset_init AS (
    SELECT initial_units, commission_year FROM asset_both WHERE asset = '{asset}'
    ),
    asset_cap AS (
    SELECT capacity FROM asset WHERE asset = '{asset}'
    )
    SELECT
    y.year,
    (ai.initial_units
    + COALESCE((SELECT SUM(solution) FROM cum_inv iv WHERE iv.milestone_year <= y.year), 0)
    - COALESCE((SELECT SUM(solution) FROM cum_dec dc WHERE dc.milestone_year <= y.year), 0))
    * ac.capacity AS installed_capacity
    FROM years y, asset_init ai, asset_cap ac
    WHERE ai.commission_year <= y.year
    ORDER BY y.year;
    ";

/// The installed capacity of the asset `{asset}` in the year `{year}`, if it is
/// commissioned by then.
pub const CAPACITY_AT_YEAR_SQL: &'static str = "
    WITH cum_inv AS (
    SELECT COALESCE(SUM(solution), 0) AS total_invest
        FROM var_assets_investment
    WHERE asset = '{asset}' AND milestone_year <= {year}
    ), cum_dec AS (
    SELECT COALESCE(SUM(solution), 0) AS total_decomm
        FROM var_assets_decommission
    WHERE asset = '{asset}' AND milestone_year <= {year}
    )
    SELECT
    a.asset,
    (a.initial_units + ci.total_invest - cd.total_decomm) * m.capacity AS installed_capacity
    FROM asset_both a
    JOIN asset m ON a.asset = m.asset,
        cum_inv ci,
        cum_dec cd
    WHERE a.asset = '{asset}' AND a.commission_year <= {year};
    ";

/// The text of the query for the capacity of `asset` over the years from
/// `start_year` to `end_year`: the years are written as decimal numerals, the
/// name of the asset as it is.
pub open spec fn capacity_over_period_text(asset: Seq<char>, start_year: int, end_year: int) -> Seq<
    char,
> {
    replaced(
        replaced(
            replaced(CAPACITY_OVER_PERIOD_SQL@, "{start_year}"@, decimal(start_year)),
            "{end_year}"@,
            decimal(end_year),
        ),
        "{asset}"@,
        asset,
    )
}

/// The text of the query for the capacity of `asset` in the year `year`.
pub open spec fn capacity_at_year_text(asset: Seq<char>, year: int) -> Seq<char> {
    replaced(replaced(CAPACITY_AT_YEAR_SQL@, "{year}"@, decimal(year)), "{asset}"@, asset)
}

/// The decimal numeral of a year.
fn year_numeral(year: i32) -> (text: Vec<char>)
    ensures
        text@ == decimal(year as int),
{
    let mut text: Vec<char> = Vec::new();
    let wide: i64 = year as i64;
    append_decimal(&mut text, wide);
    assert(text@ =~= decimal(year as int));
    text
}

/// Builds the query for the installed capacity of `asset` over the years from
/// `start_year` to `end_year`.
pub fn capacity_over_period_query(asset: &str, start_year: i32, end_year: i32) -> (sql: String)
    ensures
        sql@ == capacity_over_period_text(asset@, start_year as int, end_year as int),
{
    let a: Vec<char> = fill(
        &chars_of(CAPACITY_OVER_PERIOD_SQL),
        "{start_year}",
        &year_numeral(start_year),
    );
    let b: Vec<char> = fill(&a, "{end_year}", &year_numeral(end_year));
    string_of(&fill(&b, "{asset}", &chars_of(asset)))
}

/// Builds the query for the installed capacity of `asset` in the year `year`.
pub fn capacity_at_year_query(asset: &str, year: i32) -> (sql: String)
    ensures
        sql@ == capacity_at_year_text(asset@, year as int),
{
    let a: Vec<char> = fill(&chars_of(CAPACITY_AT_YEAR_SQL), "{year}", &year_numeral(year));
    string_of(&fill(&a, "{asset}", &chars_of(asset)))
}

} // verus!
