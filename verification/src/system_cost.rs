//! The queries for the costs of the system: of the assets, of the flows, and of
//! the units that are switched on.
use crate::query_builder::{
    breakdown_case_conditions_on, breakdown_case_conditions_on_text, breakdown_joins_text,
    build_breakdown_joins, fill_filtered_assets, with_filtered_assets,
};
use crate::text::{append_str, chars_of, fill, replaced, string_of};
use std::collections::HashMap;
use vstd::prelude::*;

verus! {

/// The discount factor of each flow in each milestone year.
pub const DISCOUNT_FACTOR_FLOWS_CTE: &'static str = "
-- see DISCOUNT_FACTOR_ASSETS_CTE for explanations
WITH MilestoneYearsWithNext AS (
    SELECT
        yd.year AS milestone_year,
        LEAD(yd.year, 1) OVER (ORDER BY yd.year) AS next_milestone_year
    FROM
        year_data AS yd
    WHERE
        yd.is_milestone = TRUE
),
ComissionedFlowsByMilestoneYear AS (
    SELECT
        m.milestone_year,
        m.next_milestone_year,
        f.from_asset,
  		f.to_asset,
        f.discount_rate,
        fc.commission_year
    FROM
        MilestoneYearsWithNext AS m
    CROSS JOIN
        flow AS f
    JOIN
        flow_commission AS fc ON f.from_asset = fc.from_asset AND f.to_asset = fc.to_asset
    WHERE fc.commission_year <= m.milestone_year
),
DiscountFactorPerYearAndFlow AS (
    SELECT
        fm.milestone_year,
        fm.from_asset,
  		fm.to_asset,
        SUM(
            POWER(
                (1 + fm.discount_rate),
                -(year_val_table.year_val - fm.commission_year)
            )
        ) AS discount_factor
    FROM
        ComissionedFlowsByMilestoneYear fm
    CROSS JOIN LATERAL (
        SELECT s_val AS year_val
        FROM GENERATE_SERIES(
            fm.milestone_year,
            COALESCE(fm.next_milestone_year - 1, fm.milestone_year)
        ) AS s(s_val)
    ) AS year_val_table
    GROUP BY
        fm.milestone_year,
        fm.from_asset,
  		fm.to_asset,
)
";

/// The variable cost of the flows per milestone year and carrier.
pub const VARIABLE_FLOW_COST_SQL: &'static str = "
-- using DISCOUNT_FACTOR_FLOWS_CTE
SELECT
    yd.year AS milestone_year,
    f.carrier,
    SUM(
        df.discount_factor * rpm.weight * (vf.time_block_end - vf.time_block_start + 1) * fm.variable_cost * vf.solution
    ) AS flow_variable_cost
FROM
    year_data AS yd
JOIN
    rep_periods_mapping AS rpm ON yd.year = rpm.year
JOIN
    flow_milestone AS fm ON yd.year = fm.milestone_year
JOIN    
    flow AS f ON f.from_asset = fm.from_asset AND f.to_asset = fm.to_asset
JOIN
    var_flow AS vf ON f.from_asset = vf.from_asset AND f.to_asset = vf.to_asset AND vf.year = rpm.year AND rpm.rep_period = vf.rep_period
JOIN 
	DiscountFactorPerYearAndFlow AS df ON df.from_asset = vf.from_asset AND df.to_asset = vf.to_asset AND df.milestone_year = yd.year
WHERE
    yd.is_milestone = TRUE
GROUP BY
    yd.year,
    f.carrier;
";

/// The fixed cost of the flows per milestone year and carrier.
pub const FIXED_FLOW_COST_SQL: &'static str = "
-- using DISCOUNT_FACTOR_FLOWS_CTE
SELECT
    yd.year AS milestone_year,
    f.carrier,
    SUM(
        0.5 * df.discount_factor * fc.fixed_cost * f.capacity *
        (fb.initial_export_units + fb.initial_import_units)
    ) AS flow_fixed_cost
FROM
    year_data AS yd
JOIN
    flow_both AS fb ON fb.milestone_year = yd.year
JOIN
    flow AS f ON fb.from_asset = f.from_asset AND fb.to_asset = f.to_asset
JOIN
    flow_commission AS fc ON f.from_asset = fc.from_asset AND f.to_asset = fc.to_asset
JOIN DiscountFactorPerYearAndFlow AS df ON df.from_asset = f.from_asset AND df.to_asset = f.to_asset AND df.milestone_year = yd.year
WHERE
    yd.is_milestone = TRUE
    AND f.is_transport = TRUE
    AND yd.year BETWEEN fb.commission_year AND (fb.commission_year + f.technical_lifetime)
GROUP BY
    yd.year,
    f.carrier;
";

/// The discount factor of each asset in each milestone year.
pub const DISCOUNT_FACTOR_ASSETS_CTE: &'static str = "
WITH MilestoneYearsWithNext AS (
    -- e.g. for Multi-Year scenario:
    -- 2030 ... 2050
    -- 2050 ... NULL
    SELECT
        yd.year AS milestone_year,
        LEAD(yd.year, 1) OVER (ORDER BY yd.year) AS next_milestone_year
    FROM
        year_data AS yd
    WHERE
        yd.is_milestone = TRUE
),
ComissionedAssetsByMilestoneYear AS (
    -- e.g. for Multi-Year scenario:
    -- milestone year 2030 will contain the batteries comissioned in 2020, 2025, 2030 (+ other assets)
    -- milestone year 2050 will contain the batteries comissioned in 2020, 2025, 2030, 2040, 2050 (+ other assets)
    SELECT
        m.milestone_year,
        m.next_milestone_year,
        a.asset,
        a.discount_rate,
        ac.commission_year
    FROM
        MilestoneYearsWithNext AS m
    CROSS JOIN
        asset AS a
    JOIN
        asset_commission AS ac ON a.asset = ac.asset
    WHERE ac.commission_year <= m.milestone_year
),
DiscountFactorPerYearAndAsset AS (
    -- Computes https://tulipaenergy.github.io/TulipaEnergyModel.jl/dev/40-formulation/#Discounting-Factor-for-Operation-Costs
    -- resulting a discount factor per (milestone year, asset) tuple
    -- Thus, one milestone year's costs also include the next non-milestone years' costs, accounting for inflation
    -- e.g. for Multi-Year scenario:
    -- for milestone year 2030, for battery comissioned in 2020, will account for years 2030 to 2049
    -- for milestone year 2030, for battery comissioned in 2025, will account for years 2030 to 2049
    -- so on for batteries comissioned up to year 2030, then the analogous for other types of assets
    -- next for milestone year 2050, for the battery comissioned in 2020, will account for year 2050
    -- so on for batteries comissioned up to year 2050, then the analogous for other types of assets
    SELECT
        am.milestone_year,
        am.asset,
        SUM(
            POWER(
                (1 + am.discount_rate),
                -(year_val_table.year_val - am.commission_year)
            )
        ) AS discount_factor
    FROM
        ComissionedAssetsByMilestoneYear am
    CROSS JOIN LATERAL (
        SELECT s_val AS year_val
        FROM GENERATE_SERIES(
            am.milestone_year,
            COALESCE(am.next_milestone_year - 1, am.milestone_year)
        ) AS s(s_val)
    ) AS year_val_table
    GROUP BY
        am.milestone_year,
        am.asset
)
";

/// The cost of the units that are on, per milestone year and bucket.
pub const UNIT_ON_COST_SQL: &'static str = "
{discount_factor_assets_cte}
SELECT
    yd.year AS milestone_year,
    CASE 
        {breakdown_case_conditions}
        ELSE 'Other'
    END AS asset,
    SUM(
        df.discount_factor
        * COALESCE(am.units_on_cost, 0) 
        * (vuo.solution / a.capacity) 
        * rpm.weight
        * (vuo.time_block_end - vuo.time_block_start + 1) 
        * rpd.resolution
    ) AS unit_on_cost
FROM
    year_data AS yd
JOIN
    rep_periods_mapping AS rpm ON yd.year = rpm.year
JOIN
    rep_periods_data AS rpd ON yd.year = rpm.year AND rpd.rep_period = rpm.rep_period  
JOIN
    asset_milestone AS am ON yd.year = am.milestone_year
JOIN
    ({filtered_assets}) AS a ON am.asset = a.asset
JOIN
    var_units_on AS vuo ON a.asset = vuo.asset 
                         AND rpm.rep_period = vuo.rep_period
                         AND rpm.year = vuo.year
JOIN
    DiscountFactorPerYearAndAsset AS df ON yd.year = df.milestone_year AND a.asset = df.asset
{breakdown_joins}
WHERE
    yd.is_milestone = TRUE
    AND a.unit_commitment = TRUE
GROUP BY
    yd.year,
    CASE 
        {breakdown_case_conditions}
        ELSE 'Other'
    END;
";

/// The cost zero per milestone year and asset, where the dataset lacks the
/// solution.
pub const UNIT_ON_COST_SQL_FALLBACK: &'static str = "
SELECT 
    yd.year AS milestone_year,
    a.asset,
    0 AS unit_on_cost
FROM
    year_data AS yd, asset AS a
WHERE
    yd.is_milestone = TRUE
    AND a.unit_commitment = TRUE
GROUP BY
    yd.year,
    a.asset;
";

/// The fixed cost of the assets per milestone year and bucket.
pub const FIXED_ASSET_COST_SQL: &'static str = "
{discount_factor_assets_cte}
SELECT
    yd.year AS milestone_year,
    CASE 
        {breakdown_case_conditions}
        ELSE 'Other'
    END AS asset,
    SUM(
        df.discount_factor * a.capacity * ac.fixed_cost * ab.initial_units
        +
        CASE
            WHEN a.type = 'storage' THEN
                df.discount_factor * a.capacity_storage_energy * ac.fixed_cost_storage_energy * ab.initial_storage_units
            ELSE
                0
        END
    ) AS assets_fixed_cost
FROM
    year_data AS yd
JOIN
    asset_both AS ab ON ab.milestone_year = yd.year
JOIN
    ({filtered_assets}) AS a ON ab.asset = a.asset
JOIN
    asset_commission AS ac ON a.asset = ac.asset
JOIN
    DiscountFactorPerYearAndAsset AS df ON yd.year = df.milestone_year AND a.asset = df.asset
{breakdown_joins}
WHERE
    yd.is_milestone = TRUE
    AND yd.year BETWEEN ab.commission_year AND (ab.commission_year + a.technical_lifetime)
GROUP BY
    yd.year,
    CASE 
        {breakdown_case_conditions}
        ELSE 'Other'
    END
ORDER BY
    yd.year;
";

/// A cost query on the assets: the template with the discount factors, the joins
/// of the breakdown, the bucket choice, and the assets to compute on filled in.
pub open spec fn asset_cost_text(
    template: Seq<char>,
    filters: Map<i32, Vec<i32>>,
    grouper: Seq<i32>,
    enable_metadata: bool,
) -> Seq<char> {
    with_filtered_assets(
        replaced(
            replaced(
                replaced(template, "{discount_factor_assets_cte}"@, DISCOUNT_FACTOR_ASSETS_CTE@),
                "{breakdown_joins}"@,
                breakdown_joins_text(grouper),
            ),
            "{breakdown_case_conditions}"@,
            breakdown_case_conditions_on_text(grouper, "a.asset"@),
        ),
        enable_metadata,
        filters,
    )
}

/// The text of the query for the cost of the units that are on.
pub open spec fn unit_on_cost_text(
    solution_present: bool,
    filters: Map<i32, Vec<i32>>,
    grouper: Seq<i32>,
    enable_metadata: bool,
) -> Seq<char> {
    if solution_present {
        asset_cost_text(UNIT_ON_COST_SQL@, filters, grouper, enable_metadata)
    } else {
        UNIT_ON_COST_SQL_FALLBACK@
    }
}

/// Fills a cost query on the assets.
fn asset_cost(
    template: &'static str,
    filters: &HashMap<i32, Vec<i32>>,
    grouper: &[i32],
    enable_metadata: bool,
) -> (sql: String)
    ensures
        sql@ == asset_cost_text(template@, filters@, grouper@, enable_metadata),
{
    let a: Vec<char> = fill(
        &chars_of(template),
        "{discount_factor_assets_cte}",
        &chars_of(DISCOUNT_FACTOR_ASSETS_CTE),
    );
    let b: Vec<char> = fill(
        &a,
        "{breakdown_joins}",
        &chars_of(build_breakdown_joins(grouper).as_str()),
    );
    let c: Vec<char> = fill(
        &b,
        "{breakdown_case_conditions}",
        &breakdown_case_conditions_on(grouper, "a.asset"),
    );
    string_of(&fill_filtered_assets(&c, enable_metadata, filters))
}

/// Builds the query for the fixed cost of the assets.
pub fn fixed_asset_cost_query(
    filters: &HashMap<i32, Vec<i32>>,
    grouper: &[i32],
    enable_metadata: bool,
) -> (sql: String)
    ensures
        sql@ == asset_cost_text(FIXED_ASSET_COST_SQL@, filters@, grouper@, enable_metadata),
{
    asset_cost(FIXED_ASSET_COST_SQL, filters, grouper, enable_metadata)
}

/// Builds the query for the cost of the units that are on. `solution_present`
/// tells whether the dataset has their solution; where it has not, every asset
/// with unit commitment gets the cost zero.
pub fn unit_on_cost_query(
    solution_present: bool,
    filters: &HashMap<i32, Vec<i32>>,
    grouper: &[i32],
    enable_metadata: bool,
) -> (sql: String)
    ensures
        sql@ == unit_on_cost_text(solution_present, filters@, grouper@, enable_metadata),
{
    if solution_present {
        asset_cost(UNIT_ON_COST_SQL, filters, grouper, enable_metadata)
    } else {
        string_of(&chars_of(UNIT_ON_COST_SQL_FALLBACK))
    }
}

/// Builds the query for the fixed cost of the flows.
pub fn fixed_flow_cost_query() -> (sql: String)
    ensures
        sql@ == DISCOUNT_FACTOR_FLOWS_CTE@ + FIXED_FLOW_COST_SQL@,
{
    let mut text: Vec<char> = Vec::new();
    append_str(&mut text, DISCOUNT_FACTOR_FLOWS_CTE);
    append_str(&mut text, FIXED_FLOW_COST_SQL);
    string_of(&text)
}

/// Builds the query for the variable cost of the flows.
pub fn variable_flow_cost_query() -> (sql: String)
    ensures
        sql@ == DISCOUNT_FACTOR_FLOWS_CTE@ + VARIABLE_FLOW_COST_SQL@,
{
    let mut text: Vec<char> = Vec::new();
    append_str(&mut text, DISCOUNT_FACTOR_FLOWS_CTE);
    append_str(&mut text, VARIABLE_FLOW_COST_SQL);
    string_of(&text)
}

} // verus!
