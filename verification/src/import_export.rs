//! Queries on the energy that flows between the regions of one level of the
//! location hierarchy.
use crate::text::{append_str, string_of};
use vstd::prelude::*;

verus! {

/// The level of the location hierarchy and the year that a flow query is about.
#[derive(Clone, Copy, Debug, PartialEq, Eq)]
pub struct EnergyFlowOptions {
    pub level: u32,
    pub year: u32,
}

/// Lists the years that have representative periods.
pub const FETCH_YEARS_SQL: &'static str = "SELECT DISTINCT year FROM rep_periods_mapping";

/// Totals the flow between each two regions of the level `$1` in the year `$2`.
pub const RESULT_INCOMPLETE_SQL: &'static str = "
    WITH RECURSIVE location_nodes AS ( -- all nodes which are under location
        -- base case
        SELECT c.id, c.level
            FROM category c
            WHERE c.name = 'location'

        UNION ALL

        -- recursive case
        SELECT c.id, c.level
            FROM location_nodes ln
            JOIN category c ON c.parent_id = ln.id
    ), recursive_trees AS ( -- recursively constructs trees starting in every node
        -- base case
        SELECT c.id AS root_id, c.level AS root_level, c.id, c.name, c.parent_id, c.level
            FROM category c
            WHERE c.id IN (SELECT id FROM location_nodes)

        UNION ALL

        -- recursive case
        SELECT rt.root_id, rt.root_level, c.id, c.name, c.parent_id, c.level
            FROM recursive_trees rt
            JOIN category c ON c.parent_id = rt.id
            WHERE c.id IN (SELECT id FROM location_nodes)
    ), root_leaf AS ( -- goes from our target level (i.e. countries) to their leaves
        SELECT rt.root_id, rt.id
            FROM recursive_trees rt
            WHERE rt.level = 0
            AND rt.root_level = $1
    ), root_asset AS ( -- from target level to assets
        SELECT rl.root_id, a.asset
            FROM asset_category ac
            RIGHT JOIN root_leaf rl ON rl.id = ac.leaf_id
            JOIN asset a ON a.asset = ac.asset
    ), result_incomplete AS ( -- calculates the total flow for each location group to each other location group
        SELECT 
            ra_from.root_id AS from_id,
            ra_to.root_id AS to_id,
            SUM(rpd.resolution * rpm.weight * (vf.time_block_end - vf.time_block_start + 1) * vf.solution) AS tot_flow
            FROM var_flow vf
            LEFT JOIN root_asset ra_from ON ra_from.asset = vf.from_asset
            LEFT JOIN root_asset ra_to ON ra_to.asset = vf.to_asset
            JOIN rep_periods_mapping rpm ON rpm.rep_period = vf.rep_period
            JOIN rep_periods_data rpd ON rpd.rep_period = rpm.rep_period
            WHERE ra_from.root_id != ra_to.root_id AND 
            rpm.year = $2
            GROUP BY ra_from.root_id, ra_to.root_id
    )
";

/// Totals, for each region, what it imports and what it exports.
pub const AGGREGATE_FLOW_SQL: &'static str = "
    SELECT
        ln.id AS id,
        c.name AS group,
        COALESCE(SUM(ri_import.tot_flow), 0) AS totalImport, -- sum from ALL countries, in 1 year, to 1 country
        COALESCE(SUM(ri_export.tot_flow), 0) AS totalExport -- sum from 1 country, in 1 year, to ALL countries
        FROM location_nodes ln
        LEFT JOIN result_incomplete ri_import ON ri_import.to_id = ln.id
        LEFT JOIN result_incomplete ri_export ON ri_export.from_id = ln.id
        JOIN category c ON c.id = ln.id
        WHERE ln.level = $1
        GROUP BY ln.id, c.name
        ORDER BY ln.id
";

/// Lists the flow between each two regions, zero where there is none.
pub const DETAILED_FLOW_SQL: &'static str = "
    SELECT -- fills in any missing information
        root_from.id AS fromId,
        c_from.name AS fromName,
        root_to.id AS toId,
        c_to.name AS toName,
        COALESCE(res.tot_flow, 0) AS totFlow
        FROM location_nodes root_from
        CROSS JOIN location_nodes root_to
        JOIN category c_from ON c_from.id = root_from.id
        JOIN category c_to ON c_to.id = root_to.id
        LEFT JOIN result_incomplete res ON (
            res.from_id = root_from.id AND
            res.to_id = root_to.id
        ) WHERE root_from.level = $1 AND root_to.level = $1
        ORDER BY root_from.id, root_to.id
";

impl EnergyFlowOptions {
    /// The arguments of a flow query, in the order of its parameters: the level,
    /// then the year.
    pub fn arguments(&self) -> (args: Vec<u32>)
        ensures
            args@ == seq![self.level, self.year],
    {
        let mut args: Vec<u32> = Vec::new();
        args.push(self.level);
        args.push(self.year);
        args
    }
}

/// Builds the query that totals imports and exports per region.
pub fn aggregate_flows_query() -> (sql: String)
    ensures
        sql@ == RESULT_INCOMPLETE_SQL@ + AGGREGATE_FLOW_SQL@,
{
    let mut out: Vec<char> = Vec::new();
    append_str(&mut out, RESULT_INCOMPLETE_SQL);
    append_str(&mut out, AGGREGATE_FLOW_SQL);
    string_of(&out)
}

/// Builds the query that lists the flow between each two regions.
pub fn detailed_flows_query() -> (sql: String)
    ensures
        sql@ == RESULT_INCOMPLETE_SQL@ + DETAILED_FLOW_SQL@,
{
    let mut out: Vec<char> = Vec::new();
    append_str(&mut out, RESULT_INCOMPLETE_SQL);
    append_str(&mut out, DETAILED_FLOW_SQL);
    string_of(&out)
}

} // verus!
