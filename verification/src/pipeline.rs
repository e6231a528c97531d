//! The whole conversion, text in, rows and rendered text out: scan,
//! filter, assemble, prune, flatten, render, and derive the roster.

use vstd::prelude::*;

use crate::assemble::assemble;
use crate::assemble::assembled;
use crate::extract::ScanError;
use crate::extract::compiles;
use crate::extract::competition_pattern;
use crate::extract::extract_competitions;
use crate::extract::extract_lanes;
use crate::extract::extract_runs;
use crate::extract::filtered_lanes;
use crate::extract::lane_pattern;
use crate::extract::run_pattern;
use crate::extract::scanned_competitions;
use crate::extract::scanned_lanes;
use crate::extract::scanned_runs;
use crate::model::CompetitionV;
use crate::model::Row;
use crate::model::row_views;
use crate::render::csv_of;
use crate::render::csv_of_rows;
use crate::render::flatten;
use crate::render::roster;
use crate::render::roster_of;
use crate::render::rows_of;

verus! {

/// Everything one conversion yields: the flat records in output order,
/// their rendering as delimiter-separated text, the number of accepted
/// lane results before assembly, and the size of the deduplicated
/// participant roster.
pub struct Summary {
    pub rows: Vec<Row>,
    pub csv: String,
    pub starts: usize,
    pub swimmers: usize,
}

/// The assembled tree a text yields under an affiliation filter: the
/// three scans, the filter on the lane results, then assembly and
/// pruning.
pub open spec fn converted_tree(text: Seq<char>, club: Seq<char>) -> Seq<CompetitionV> {
    assembled(
        scanned_competitions(text),
        scanned_runs(text),
        filtered_lanes(scanned_lanes(text), club),
    )
}

/// Runs the whole conversion on one text blob. It succeeds exactly when
/// the three fixed recognition patterns compile; on an in-memory text the
/// conversion itself never fails.
pub fn convert_document(text: &str, club: &String) -> (r: Result<Summary, ScanError>)
    ensures
        (r is Ok) == (compiles(competition_pattern()) && compiles(run_pattern()) && compiles(
            lane_pattern(),
        )),
        r matches Ok(s) ==> {
            &&& row_views(s.rows@) == rows_of(converted_tree(text@, club@))
            &&& s.csv@ == csv_of(rows_of(converted_tree(text@, club@)))
            &&& s.starts == filtered_lanes(scanned_lanes(text@), club@).len()
            &&& s.swimmers == roster_of(rows_of(converted_tree(text@, club@))).len()
        },
{
    let comps = match extract_competitions(text) {
        Ok(v) => v,
        Err(e) => {
            return Err(e);
        },
    };
    let runs = match extract_runs(text) {
        Ok(v) => v,
        Err(e) => {
            return Err(e);
        },
    };
    let lanes = match extract_lanes(text, club) {
        Ok(v) => v,
        Err(e) => {
            return Err(e);
        },
    };
    let starts = lanes.len();
    let tree = assemble(comps, runs, lanes);
    let rows = flatten(&tree);
    let csv = csv_of_rows(&rows);
    let names = roster(&rows);
    let swimmers = names.len();
    Ok(Summary { rows, csv, starts, swimmers })
}

} // verus!
