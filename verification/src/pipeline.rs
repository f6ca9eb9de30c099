//! The pipeline: from the rows of a dataset to the series of each group at the
//! resolution that the caller chose.
use crate::arrange::{
    arrange, arranged, lemma_arranged, lemma_arranged_of_ordered, ordered, precedes,
};
use crate::breakdown::{break_down, broken_down, classified};
use crate::category_filter::{apply_filter, kept, lemma_kept_pass, passes};
use crate::combine::{combine, combined};
use crate::compaction::{
    compact, compacted, lemma_compacted_flat, lemma_compacted_lines, lemma_compacted_maximal,
    lemma_compacted_ordered, lemma_compacted_tiled,
};
use crate::coverage::{ends_run, flattened, lemma_answer_coverage};
use crate::gather::gathered;
use crate::intervals::{build_intervals, intervals};
use crate::local_coverage::{
    filled, lemma_compacted_filled, lemma_weighted_tiled, resolutions_agree,
};
use crate::model::{
    alike, piece_of, pieces_of, segments_maximal, segments_of, segments_ordered, to_pieces,
    to_segments, CategoryNode, Membership, OutputSegment, PeriodLength, PeriodMapping,
    TimeBlockRow,
};
use crate::numbers::{
    lemma_arranged_values, lemma_combined_values, lemma_compacted_values,
    lemma_gathered_values, lemma_resampled_values, lemma_shares_values, lemma_shifted_values,
};
use crate::period_hours::{
    counted, hours_of, lemma_compacted_counted, lemma_local_reaches, lemma_period_hours,
};
use crate::provenance::{
    lemma_arranged_lines, lemma_gathered_lines, lemma_lines_within_trans, lemma_placed_blocks,
    lemma_resampled_lines, lemma_shares_lines, lemma_shifted_lines,
};
use crate::resample::{parse_aggregation, resample, resampled, Aggregation};
use crate::series::{
    flat, has_line, horizon, lines_within, maximal, tiled, values_wf, EngineError, Piece,
};
use crate::text::{chars_equal, chars_of};
use crate::timeline::{duration, map_to_global_axis, on_global_axis};
use crate::weighting::{
    assign_weighted, place_periods, placed, placements, shares, weighted, Placement,
};
use std::collections::HashMap;
use vstd::prelude::*;

verus! {

/// Which series a request is about.
#[derive(Clone, Copy, Debug, PartialEq, Eq, Structural)]
pub enum Selection {
    /// The series that the rows of representative periods give.
    ShortTerm,
    /// The series that the caller computed apart, over whole periods.
    LongTerm,
    /// The union of both, with the values summed where both have one.
    Both,
}

/// Reads a selection: `short-term`, `long-term` or `both`, and nothing else.
pub fn parse_selection(text: &str) -> (selection: Result<Selection, EngineError>)
    ensures
        text@ == "short-term"@ ==> selection == Ok::<Selection, EngineError>(Selection::ShortTerm),
        text@ == "long-term"@ ==> selection == Ok::<Selection, EngineError>(Selection::LongTerm),
        text@ == "both"@ ==> selection == Ok::<Selection, EngineError>(Selection::Both),
        text@ != "short-term"@ && text@ != "long-term"@ && text@ != "both"@ ==> selection == Err::<
            Selection,
            EngineError,
        >(EngineError::UnknownSelection),
{
    let t: Vec<char> = chars_of(text);
    proof {
        reveal_strlit("short-term");
        reveal_strlit("long-term");
        reveal_strlit("both");
        assert("short-term"@[0] != "long-term"@[0]);
        assert("short-term"@[0] != "both"@[0]);
        assert("long-term"@[0] != "both"@[0]);
    }
    if chars_equal(&t, &chars_of("short-term")) {
        Ok(Selection::ShortTerm)
    } else if chars_equal(&t, &chars_of("long-term")) {
        Ok(Selection::LongTerm)
    } else if chars_equal(&t, &chars_of("both")) {
        Ok(Selection::Both)
    } else {
        Err(EngineError::UnknownSelection)
    }
}

/// The rows of the year `year`, in their order. Where the dataset lacks the
/// values, each row stands with the value zero.
pub open spec fn of_year(rows: Seq<TimeBlockRow>, year: u32, values_present: bool) -> Seq<
    TimeBlockRow,
>
    decreases rows.len(),
{
    if rows.len() == 0 {
        Seq::empty()
    } else {
        let before = of_year(rows.drop_last(), year, values_present);
        if rows.last().year == year {
            before.push(
                if values_present {
                    rows.last()
                } else {
                    TimeBlockRow { value: 0, ..rows.last() }
                },
            )
        } else {
            before
        }
    }
}

/// The series by the groups that the caller asked for: by entities where the
/// breakdown is empty, else by its buckets.
pub open spec fn by_groups(
    pieces: Seq<Piece>,
    memberships: Seq<Membership>,
    nodes: Seq<CategoryNode>,
    breakdown: Seq<i32>,
) -> Option<Seq<Piece>> {
    if breakdown.len() == 0 {
        Some(pieces)
    } else {
        broken_down(pieces, memberships, nodes, breakdown)
    }
}

/// The series of each period in hours from the period's start: the blocks in
/// order and compacted, the periods cut into intervals, the values weighted, and
/// neighbours of equal value merged again.
pub open spec fn local_series(
    pieces: Seq<Piece>,
    mappings: Seq<PeriodMapping>,
    lengths: Seq<PeriodLength>,
) -> Option<Seq<Piece>> {
    let blocks = compacted(arranged(pieces));
    match weighted(blocks, mappings, lengths, intervals(blocks, mappings)) {
        None => None,
        Some(series) => Some(compacted(series)),
    }
}

/// The series on the global axis that the selection asks for.
pub open spec fn selected(
    first: Seq<Piece>,
    second: Seq<Piece>,
    selection: Selection,
    places: Seq<Placement>,
) -> Option<Seq<Piece>> {
    match selection {
        Selection::ShortTerm => on_global_axis(first, places),
        Selection::LongTerm => on_global_axis(second, places),
        Selection::Both => match on_global_axis(first, places) {
            None => None,
            Some(a) => match on_global_axis(second, places) {
                None => None,
                Some(b) => combined(a, b),
            },
        },
    }
}

/// The series at the chosen resolution: resampled, put in the order of group,
/// year and start, and compacted.
pub open spec fn at_resolution(axis: Seq<Piece>, width: int, mode: Aggregation) -> Option<
    Seq<Piece>,
> {
    match resampled(axis, width, mode) {
        None => None,
        Some(series) => Some(compacted(arranged(series))),
    }
}

/// The whole computation on rows that are filtered already. `None` where a number
/// does not fit.
pub open spec fn computed(
    rows: Seq<TimeBlockRow>,
    mappings: Seq<PeriodMapping>,
    lengths: Seq<PeriodLength>,
    memberships: Seq<Membership>,
    nodes: Seq<CategoryNode>,
    breakdown: Seq<i32>,
    second: Seq<Piece>,
    selection: Selection,
    width: int,
    mode: Aggregation,
) -> Option<Seq<Piece>> {
    match by_groups(pieces_of(rows), memberships, nodes, breakdown) {
        None => None,
        Some(grouped) => match local_series(grouped, mappings, lengths) {
            None => None,
            Some(first) => match selected(
                first,
                second,
                selection,
                placements(mappings, lengths),
            ) {
                None => None,
                Some(axis) => at_resolution(axis, width, mode),
            },
        },
    }
}

/// What a request is answered with.
pub open spec fn answer(
    rows: Seq<TimeBlockRow>,
    mappings: Seq<PeriodMapping>,
    lengths: Seq<PeriodLength>,
    memberships: Seq<Membership>,
    nodes: Seq<CategoryNode>,
    filter: Map<i32, Vec<i32>>,
    breakdown: Seq<i32>,
    second: Seq<Piece>,
    year: u32,
    width: u64,
    agg: Seq<char>,
    selection: Seq<char>,
    values_present: bool,
    require_data: bool,
) -> Result<Seq<OutputSegment>, EngineError> {
    if agg != "sum"@ && agg != "avg"@ {
        Err(EngineError::UnknownMode)
    } else if selection != "short-term"@ && selection != "long-term"@ && selection != "both"@ {
        Err(EngineError::UnknownSelection)
    } else if width == 0 {
        Err(EngineError::ZeroWidth)
    } else {
        match computed(
            kept(of_year(rows, year, values_present), filter, memberships, nodes),
            mappings,
            lengths,
            memberships,
            nodes,
            breakdown,
            second,
            if selection == "short-term"@ {
                Selection::ShortTerm
            } else if selection == "long-term"@ {
                Selection::LongTerm
            } else {
                Selection::Both
            },
            width as int,
            if agg == "sum"@ {
                Aggregation::Sum
            } else {
                Aggregation::Avg
            },
        ) {
            None => Err(EngineError::Overflow),
            Some(series) => if require_data && series.len() == 0 {
                Err(EngineError::NoData)
            } else {
                Ok(segments_of(series))
            },
        }
    }
}

/// The series at a resolution is maximal, in the order of group, year and start,
/// and on the global axis; its groups and years are those of the axis.
pub proof fn lemma_at_resolution(axis: Seq<Piece>, width: int, mode: Aggregation)
    requires
        width > 0,
        at_resolution(axis, width, mode) is Some,
    ensures
        maximal(at_resolution(axis, width, mode)->Some_0),
        ordered(at_resolution(axis, width, mode)->Some_0),
        flat(at_resolution(axis, width, mode)->Some_0),
        lines_within(at_resolution(axis, width, mode)->Some_0, axis),
{
    let r = resampled(axis, width, mode)->Some_0;
    lemma_resampled_lines(axis, width, mode);
    lemma_arranged(r);
    lemma_arranged_lines(r);
    lemma_compacted_maximal(arranged(r));
    lemma_compacted_ordered(arranged(r));
    lemma_compacted_flat(arranged(r));
    lemma_compacted_lines(arranged(r));
    lemma_lines_within_trans(compacted(arranged(r)), arranged(r), r);
    lemma_lines_within_trans(compacted(arranged(r)), r, axis);
}

/// The segments of a maximal, ordered series on the global axis are maximal and
/// ordered.
pub proof fn lemma_segments_shape(series: Seq<Piece>)
    requires
        maximal(series),
        ordered(series),
        flat(series),
    ensures
        segments_maximal(segments_of(series)),
        segments_ordered(segments_of(series)),
{
    let s = segments_of(series);
    assert forall|i: int| 0 < i < s.len() && alike(s[i - 1], s[i]) implies !(
    #[trigger] s[i]).value.same(s[i - 1].value) by {
        assert(series[i].period == 0 && series[i - 1].period == 0);
        assert(!series[i].value.same(series[i - 1].value));
    }
    assert forall|i: int, j: int| 0 <= i < j < s.len() implies s[i].group_key < s[j].group_key || (
    s[i].group_key == s[j].group_key && (s[i].year < s[j].year || (s[i].year == s[j].year
        && s[i].global_start <= s[j].global_start))) by {
        assert(series[i].period == 0 && series[j].period == 0);
        assert(!precedes(series[j], series[i]));
    }
}

/// The series of the periods has no group and year that the pieces lack.
pub proof fn lemma_local_series_lines(
    pieces: Seq<Piece>,
    mappings: Seq<PeriodMapping>,
    lengths: Seq<PeriodLength>,
)
    requires
        local_series(pieces, mappings, lengths) is Some,
    ensures
        lines_within(local_series(pieces, mappings, lengths)->Some_0, pieces),
{
    let blocks = compacted(arranged(pieces));
    let cuts = intervals(blocks, mappings);
    let pairs = placed(blocks, placements(mappings, lengths));
    let parts = shares(pairs, cuts)->Some_0;
    let cells = gathered(parts)->Some_0;
    let series = arranged(cells);
    lemma_arranged_lines(pieces);
    lemma_compacted_lines(arranged(pieces));
    lemma_lines_within_trans(blocks, arranged(pieces), pieces);
    lemma_placed_blocks(blocks, placements(mappings, lengths));
    lemma_shares_lines(pairs, cuts, blocks);
    lemma_gathered_lines(parts);
    lemma_arranged_lines(cells);
    lemma_compacted_lines(series);
    lemma_lines_within_trans(compacted(series), series, cells);
    lemma_lines_within_trans(compacted(series), cells, parts);
    lemma_lines_within_trans(compacted(series), parts, blocks);
    lemma_lines_within_trans(compacted(series), blocks, pieces);
}

/// The series on the global axis has no group and year that the series of the
/// periods lacks.
pub proof fn lemma_axis_lines(local: Seq<Piece>, places: Seq<Placement>)
    requires
        on_global_axis(local, places) is Some,
    ensures
        lines_within(on_global_axis(local, places)->Some_0, local),
{
    let s = arranged(local);
    lemma_arranged(local);
    lemma_arranged_lines(local);
    lemma_shifted_lines(s, s.len() as int, places);
    let axis = on_global_axis(local, places)->Some_0;
    assert forall|i: int| 0 <= i < axis.len() implies has_line(
        local,
        (#[trigger] axis[i]).group,
        axis[i].year,
    ) by {
        assert(has_line(local, s[i].group, s[i].year));
    }
}

/// Filter exclusivity of the answer: where the entities are the groups and the
/// series of the representative periods is asked for, every segment of the answer
/// is of the requested year and of an entity that has a row in that year and
/// passes the filter. No segment is of an entity that the filter excludes.
pub proof fn lemma_answer_filtered(
    rows: Seq<TimeBlockRow>,
    mappings: Seq<PeriodMapping>,
    lengths: Seq<PeriodLength>,
    memberships: Seq<Membership>,
    nodes: Seq<CategoryNode>,
    filter: Map<i32, Vec<i32>>,
    second: Seq<Piece>,
    year: u32,
    width: u64,
    agg: Seq<char>,
    values_present: bool,
    require_data: bool,
)
    requires
        answer(
            rows,
            mappings,
            lengths,
            memberships,
            nodes,
            filter,
            Seq::<i32>::empty(),
            second,
            year,
            width,
            agg,
            "short-term"@,
            values_present,
            require_data,
        ) is Ok,
    ensures
        forall|i: int|
            0 <= i < answer(
                rows,
                mappings,
                lengths,
                memberships,
                nodes,
                filter,
                Seq::<i32>::empty(),
                second,
                year,
                width,
                agg,
                "short-term"@,
                values_present,
                require_data,
            )->Ok_0.len() ==> {
                let segment = #[trigger] answer(
                    rows,
                    mappings,
                    lengths,
                    memberships,
                    nodes,
                    filter,
                    Seq::<i32>::empty(),
                    second,
                    year,
                    width,
                    agg,
                    "short-term"@,
                    values_present,
                    require_data,
                )->Ok_0[i];
                &&& segment.year == year
                &&& passes(filter, memberships, nodes, segment.group_key)
                &&& exists|k: int|
                    0 <= k < rows.len() && (#[trigger] rows[k]).entity_key == segment.group_key
                        && rows[k].year == year
            },
{
    let mode = if agg == "sum"@ {
        Aggregation::Sum
    } else {
        Aggregation::Avg
    };
    let chosen = kept(of_year(rows, year, values_present), filter, memberships, nodes);
    let pieces = pieces_of(chosen);
    let places = placements(mappings, lengths);
    let first = local_series(pieces, mappings, lengths)->Some_0;
    let axis = on_global_axis(first, places)->Some_0;
    let series = at_resolution(axis, width as int, mode)->Some_0;
    let out = segments_of(series);
    lemma_local_series_lines(pieces, mappings, lengths);
    lemma_axis_lines(first, places);
    lemma_at_resolution(axis, width as int, mode);
    lemma_lines_within_trans(series, axis, first);
    lemma_lines_within_trans(series, first, pieces);
    lemma_kept_pass(of_year(rows, year, values_present), filter, memberships, nodes);
    lemma_of_year(rows, year, values_present);
    assert forall|i: int| 0 <= i < out.len() implies {
        let segment = #[trigger] out[i];
        &&& segment.year == year
        &&& passes(filter, memberships, nodes, segment.group_key)
        &&& exists|k: int|
            0 <= k < rows.len() && (#[trigger] rows[k]).entity_key == segment.group_key
                && rows[k].year == year
    } by {
        assert(has_line(pieces, series[i].group, series[i].year));
        let j = choose|j: int|
            0 <= j < pieces.len() && (#[trigger] pieces[j]).group == series[i].group
                && pieces[j].year == series[i].year;
        assert(pieces[j] == piece_of(chosen[j]));
        assert(passes(filter, memberships, nodes, chosen[j].entity_key));
        assert(of_year(rows, year, values_present).contains(chosen[j]));
        let m = choose|m: int|
            0 <= m < of_year(rows, year, values_present).len() && of_year(
                rows,
                year,
                values_present,
            )[m] == chosen[j];
        let k = choose|k: int|
            0 <= k < rows.len() && (#[trigger] rows[k]).entity_key == of_year(
                rows,
                year,
                values_present,
            )[m].entity_key && rows[k].year == year;
    }
}

/// Every row picked for a year is of that year and has the entity of a row of the
/// input of that year.
pub proof fn lemma_of_year(rows: Seq<TimeBlockRow>, year: u32, values_present: bool)
    ensures
        forall|m: int|
            0 <= m < of_year(rows, year, values_present).len() ==> (#[trigger] of_year(
                rows,
                year,
                values_present,
            )[m]).year == year && exists|k: int|
                0 <= k < rows.len() && (#[trigger] rows[k]).entity_key == of_year(
                    rows,
                    year,
                    values_present,
                )[m].entity_key && rows[k].year == year,
    decreases rows.len(),
{
    if rows.len() > 0 {
        let prev = rows.drop_last();
        lemma_of_year(prev, year, values_present);
        let before = of_year(prev, year, values_present);
        let all = of_year(rows, year, values_present);
        assert forall|m: int| 0 <= m < all.len() implies (#[trigger] all[m]).year == year
            && exists|k: int|
            0 <= k < rows.len() && (#[trigger] rows[k]).entity_key == all[m].entity_key
                && rows[k].year == year by {
            if m < before.len() {
                assert(all[m] == before[m]);
                let k = choose|k: int|
                    0 <= k < prev.len() && (#[trigger] prev[k]).entity_key == before[m].entity_key
                        && prev[k].year == year;
                assert(rows[k] == prev[k]);
            } else {
                assert(rows[rows.len() - 1].entity_key == all[m].entity_key);
            }
        }
    }
}

/// Coverage of the series of the periods. Where the blocks of each group, in the
/// order of group, year, representative period and start, fill their
/// representative periods, and the representative periods of each period agree in
/// their resolution, the series of the periods is in order and covers each period
/// from its start without gap or overlap.
pub proof fn lemma_local_series_tiled(
    pieces: Seq<Piece>,
    mappings: Seq<PeriodMapping>,
    lengths: Seq<PeriodLength>,
)
    requires
        filled(arranged(pieces)),
        resolutions_agree(placements(mappings, lengths)),
        local_series(pieces, mappings, lengths) is Some,
    ensures
        tiled(local_series(pieces, mappings, lengths)->Some_0),
        ordered(local_series(pieces, mappings, lengths)->Some_0),
        arranged(local_series(pieces, mappings, lengths)->Some_0) == local_series(
            pieces,
            mappings,
            lengths,
        )->Some_0,
{
    let blocks = compacted(arranged(pieces));
    lemma_compacted_filled(arranged(pieces));
    lemma_weighted_tiled(blocks, mappings, lengths);
    let series = weighted(blocks, mappings, lengths, intervals(blocks, mappings))->Some_0;
    lemma_compacted_tiled(series);
    lemma_compacted_ordered(series);
    lemma_arranged_of_ordered(compacted(series));
}

/// Every value of the answer is a number. Where the resolutions are at least one
/// hour and the values of the second series are fractions with a positive
/// denominator, so are the values of the answer: being the same value is then
/// being the same number.
pub proof fn lemma_computed_values(
    rows: Seq<TimeBlockRow>,
    mappings: Seq<PeriodMapping>,
    lengths: Seq<PeriodLength>,
    memberships: Seq<Membership>,
    nodes: Seq<CategoryNode>,
    breakdown: Seq<i32>,
    second: Seq<Piece>,
    selection: Selection,
    width: int,
    mode: Aggregation,
)
    requires
        width > 0,
        resolutions_agree(placements(mappings, lengths)),
        values_wf(second),
        computed(
            rows,
            mappings,
            lengths,
            memberships,
            nodes,
            breakdown,
            second,
            selection,
            width,
            mode,
        ) is Some,
    ensures
        values_wf(
            computed(
                rows,
                mappings,
                lengths,
                memberships,
                nodes,
                breakdown,
                second,
                selection,
                width,
                mode,
            )->Some_0,
        ),
{
    let pieces = pieces_of(rows);
    let grouped = by_groups(pieces, memberships, nodes, breakdown)->Some_0;
    if breakdown.len() > 0 {
        let renamed = classified(pieces, memberships, nodes, breakdown);
        assert(values_wf(renamed));
        lemma_gathered_values(renamed);
    }
    lemma_local_series_values(grouped, mappings, lengths);
    let places = placements(mappings, lengths);
    let first = local_series(grouped, mappings, lengths)->Some_0;
    lemma_selected_values(first, second, selection, places);
    let axis = selected(first, second, selection, places)->Some_0;
    lemma_resampled_values(axis, width, mode);
    let series = resampled(axis, width, mode)->Some_0;
    lemma_arranged_values(series);
    lemma_compacted_values(arranged(series));
}

/// The series of the periods of numbers is a series of numbers.
pub proof fn lemma_local_series_values(
    pieces: Seq<Piece>,
    mappings: Seq<PeriodMapping>,
    lengths: Seq<PeriodLength>,
)
    requires
        values_wf(pieces),
        resolutions_agree(placements(mappings, lengths)),
        local_series(pieces, mappings, lengths) is Some,
    ensures
        values_wf(local_series(pieces, mappings, lengths)->Some_0),
{
    lemma_arranged_values(pieces);
    lemma_compacted_values(arranged(pieces));
    let blocks = compacted(arranged(pieces));
    lemma_shares_values(blocks, mappings, lengths);
    let parts = shares(
        placed(blocks, placements(mappings, lengths)),
        intervals(blocks, mappings),
    )->Some_0;
    lemma_gathered_values(parts);
    lemma_arranged_values(gathered(parts)->Some_0);
    lemma_compacted_values(arranged(gathered(parts)->Some_0));
}

/// The selected series of numbers is a series of numbers.
pub proof fn lemma_selected_values(first: Seq<Piece>, second: Seq<Piece>, selection: Selection, places: Seq<Placement>)
    requires
        values_wf(first),
        values_wf(second),
        selected(first, second, selection, places) is Some,
    ensures
        values_wf(selected(first, second, selection, places)->Some_0),
{
    match selection {
        Selection::ShortTerm => {
            lemma_arranged_values(first);
            lemma_shifted_values(arranged(first), arranged(first).len() as int, places);
        },
        Selection::LongTerm => {
            lemma_arranged_values(second);
            lemma_shifted_values(arranged(second), arranged(second).len() as int, places);
        },
        Selection::Both => {
            lemma_arranged_values(first);
            lemma_shifted_values(arranged(first), arranged(first).len() as int, places);
            lemma_arranged_values(second);
            lemma_shifted_values(arranged(second), arranged(second).len() as int, places);
            lemma_combined_values(
                on_global_axis(first, places)->Some_0,
                on_global_axis(second, places)->Some_0,
            );
        },
    }
}

/// The hours of a period. Let the blocks of each group fill their representative
/// periods from the first timestep to the last, and let the representative
/// periods of each period agree in resolution and number of timesteps. Then the
/// series of each group in each period ends at the resolution times the number of
/// timesteps, and by these hours the global axis moves on behind the period.
pub proof fn lemma_local_series_hours(
    pieces: Seq<Piece>,
    mappings: Seq<PeriodMapping>,
    lengths: Seq<PeriodLength>,
    i: int,
) -> (pl: Placement)
    requires
        filled(arranged(pieces)),
        resolutions_agree(placements(mappings, lengths)),
        counted(arranged(pieces), placements(mappings, lengths)),
        local_series(pieces, mappings, lengths) is Some,
        0 <= i < local_series(pieces, mappings, lengths)->Some_0.len(),
        ends_run(local_series(pieces, mappings, lengths)->Some_0, i),
    ensures
        placements(mappings, lengths).contains(pl),
        pl.year == local_series(pieces, mappings, lengths)->Some_0[i].year,
        pl.period == local_series(pieces, mappings, lengths)->Some_0[i].period,
        local_series(pieces, mappings, lengths)->Some_0[i].end == hours_of(pl),
        duration(
            placements(mappings, lengths),
            pl.year,
            local_series(pieces, mappings, lengths)->Some_0[i].period,
        ) == hours_of(pl),
{
    let blocks = compacted(arranged(pieces));
    lemma_compacted_filled(arranged(pieces));
    lemma_compacted_counted(arranged(pieces), placements(mappings, lengths));
    lemma_period_hours(blocks, mappings, lengths, i)
}

/// Coverage. Let the blocks of each group fill their representative periods:
/// in each the first block starts at timestep one, each next block starts one
/// timestep after the block before it ends, and the last block ends at the last
/// timestep. Let the representative periods of each period agree in their
/// resolution, of at least one hour, and in their number of timesteps. Then the
/// series of the representative periods is answered, at any resolution, by pieces that
/// are in the order of group, year and start; that cover each group and year from
/// hour zero on without gap or overlap, up to the hour where its periods, laid
/// end to end, end; and of which no two neighbours have the same value.
pub proof fn lemma_computed_coverage(
    rows: Seq<TimeBlockRow>,
    mappings: Seq<PeriodMapping>,
    lengths: Seq<PeriodLength>,
    memberships: Seq<Membership>,
    nodes: Seq<CategoryNode>,
    breakdown: Seq<i32>,
    second: Seq<Piece>,
    width: int,
    mode: Aggregation,
    x: Piece,
)
    requires
        width > 0,
        computed(
            rows,
            mappings,
            lengths,
            memberships,
            nodes,
            breakdown,
            second,
            Selection::ShortTerm,
            width,
            mode,
        ) is Some,
        filled(arranged(by_groups(pieces_of(rows), memberships, nodes, breakdown)->Some_0)),
        resolutions_agree(placements(mappings, lengths)),
        counted(
            arranged(by_groups(pieces_of(rows), memberships, nodes, breakdown)->Some_0),
            placements(mappings, lengths),
        ),
    ensures
        ({
            let out = computed(
                rows,
                mappings,
                lengths,
                memberships,
                nodes,
                breakdown,
                second,
                Selection::ShortTerm,
                width,
                mode,
            )->Some_0;
            let grouped = by_groups(pieces_of(rows), memberships, nodes, breakdown)->Some_0;
            let axis = on_global_axis(
                local_series(grouped, mappings, lengths)->Some_0,
                placements(mappings, lengths),
            )->Some_0;
            &&& flat(out)
            &&& tiled(out)
            &&& ordered(out)
            &&& maximal(out)
            &&& horizon(out, x) == horizon(flattened(axis), x)
        }),
{
    let grouped = by_groups(pieces_of(rows), memberships, nodes, breakdown)->Some_0;
    lemma_local_series_tiled(grouped, mappings, lengths);
    let local = local_series(grouped, mappings, lengths)->Some_0;
    let places = placements(mappings, lengths);
    lemma_compacted_filled(arranged(grouped));
    lemma_compacted_counted(arranged(grouped), places);
    lemma_local_reaches(compacted(arranged(grouped)), mappings, lengths);
    lemma_answer_coverage(local, width, mode, x, places);
}

/// Picks the rows of one year, with zero values where the dataset lacks them.
pub fn rows_of_year(rows: &Vec<TimeBlockRow>, year: u32, values_present: bool) -> (out: Vec<
    TimeBlockRow,
>)
    ensures
        out@ == of_year(rows@, year, values_present),
{
    let mut out: Vec<TimeBlockRow> = Vec::new();
    let mut i: usize = 0;
    while i < rows.len()
        invariant
            i <= rows.len(),
            out@ == of_year(rows@.take(i as int), year, values_present),
        decreases rows.len() - i,
    {
        let row: TimeBlockRow = rows[i];
        proof {
            assert(rows@.take(i + 1).drop_last() =~= rows@.take(i as int));
        }
        if row.year == year {
            if values_present {
                out.push(row);
            } else {
                out.push(
                    TimeBlockRow {
                        entity_key: row.entity_key,
                        year: row.year,
                        rep_period: row.rep_period,
                        block_start: row.block_start,
                        block_end: row.block_end,
                        value: 0,
                    },
                );
            }
        }
        i += 1;
    }
    assert(rows@.take(rows.len() as int) =~= rows@);
    out
}

/// Computes the series of each period, in hours from the period's start.
pub fn build_local_series(
    pieces: &Vec<Piece>,
    mappings: &Vec<PeriodMapping>,
    lengths: &Vec<PeriodLength>,
) -> (out: Option<Vec<Piece>>)
    ensures
        match out {
            Some(series) => local_series(pieces@, mappings@, lengths@) == Some(series@),
            None => local_series(pieces@, mappings@, lengths@) is None,
        },
{
    let blocks: Vec<Piece> = compact(&arrange(pieces));
    let cuts: Vec<Piece> = build_intervals(&blocks, mappings);
    match assign_weighted(&blocks, mappings, lengths, &cuts) {
        None => None,
        Some(series) => Some(compact(&series)),
    }
}

/// Puts the selected series on the global axis.
pub fn select_series(
    first: &Vec<Piece>,
    second: &Vec<Piece>,
    selection: Selection,
    places: &Vec<Placement>,
) -> (out: Option<Vec<Piece>>)
    ensures
        match out {
            Some(series) => selected(first@, second@, selection, places@) == Some(series@),
            None => selected(first@, second@, selection, places@) is None,
        },
{
    match selection {
        Selection::ShortTerm => map_to_global_axis(first, places),
        Selection::LongTerm => map_to_global_axis(second, places),
        Selection::Both => match map_to_global_axis(first, places) {
            None => None,
            Some(a) => match map_to_global_axis(second, places) {
                None => None,
                Some(b) => combine(&a, &b),
            },
        },
    }
}

/// Answers a request. The rows of the requested year are filtered by category,
/// put into the buckets of the breakdown if there is one, compacted, cut at the
/// block ends of each period, weighted, laid on the global axis, united with the
/// second series if the selection asks for it, resampled at `width` hours by the
/// mode `agg`, and compacted. An unknown mode, an unknown selection and a zero
/// width are refused before anything is computed. With `values_present` unset
/// every value counts as zero. A year without rows gives an empty answer, or the
/// error `NoData` where `require_data` is set.
pub fn run_pipeline(
    rows: &Vec<TimeBlockRow>,
    mappings: &Vec<PeriodMapping>,
    lengths: &Vec<PeriodLength>,
    memberships: &Vec<Membership>,
    nodes: &Vec<CategoryNode>,
    filter: &HashMap<i32, Vec<i32>>,
    breakdown: &Vec<i32>,
    second: &Vec<Piece>,
    year: u32,
    width: u64,
    agg: &str,
    selection: &str,
    values_present: bool,
    require_data: bool,
) -> (out: Result<Vec<OutputSegment>, EngineError>)
    ensures
        match answer(
            rows@,
            mappings@,
            lengths@,
            memberships@,
            nodes@,
            filter@,
            breakdown@,
            second@,
            year,
            width,
            agg@,
            selection@,
            values_present,
            require_data,
        ) {
            Ok(series) => out is Ok && out->Ok_0@ == series,
            Err(error) => out == Err::<Vec<OutputSegment>, EngineError>(error),
        },
        out is Ok ==> segments_maximal(out->Ok_0@) && segments_ordered(out->Ok_0@),
{
    let mode: Aggregation = match parse_aggregation(agg) {
        Err(e) => {
            return Err(e);
        },
        Ok(mode) => mode,
    };
    let which: Selection = match parse_selection(selection) {
        Err(e) => {
            return Err(e);
        },
        Ok(which) => which,
    };
    if width == 0 {
        return Err(EngineError::ZeroWidth);
    }
    let chosen: Vec<TimeBlockRow> = apply_filter(
        &rows_of_year(rows, year, values_present),
        filter,
        memberships,
        nodes,
    );
    let pieces: Vec<Piece> = to_pieces(&chosen);
    let grouped: Vec<Piece> = if breakdown.len() == 0 {
        pieces
    } else {
        match break_down(&pieces, memberships, nodes, breakdown) {
            None => {
                return Err(EngineError::Overflow);
            },
            Some(grouped) => grouped,
        }
    };
    let first: Vec<Piece> = match build_local_series(&grouped, mappings, lengths) {
        None => {
            return Err(EngineError::Overflow);
        },
        Some(first) => first,
    };
    let places: Vec<Placement> = place_periods(mappings, lengths);
    let axis: Vec<Piece> = match select_series(&first, second, which, &places) {
        None => {
            return Err(EngineError::Overflow);
        },
        Some(axis) => axis,
    };
    let series: Vec<Piece> = match resample(&axis, width, mode) {
        Err(e) => {
            return Err(e);
        },
        Ok(series) => compact(&arrange(&series)),
    };
    if require_data && series.len() == 0 {
        return Err(EngineError::NoData);
    }
    proof {
        lemma_at_resolution(axis@, width as int, mode);
        lemma_segments_shape(series@);
    }
    Ok(to_segments(&series))
}

} // verus!
