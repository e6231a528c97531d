//! The row flattener and its consumers: walking the assembled tree in
//! order and emitting one flat record per lane result, rendering the
//! records as delimiter-separated text, deriving the deduplicated
//! participant roster, and the row-count validation hook.

use vstd::prelude::*;

use crate::model::Competition;
use crate::model::CompetitionV;
use crate::model::LaneV;
use crate::model::Row;
use crate::model::RowV;
use crate::model::Run;
use crate::model::RunV;
use crate::model::Swimmer;
use crate::model::SwimmerV;
use crate::model::row_views;
use crate::model::run_views;
use crate::model::competition_views;
use crate::model::swimmer_views;

verus! {

// ---------------------------------------------------------------------------
// Specification: flattening the tree into rows
// ---------------------------------------------------------------------------

/// The flat record a lane result contributes, under its competition label
/// and its heat's time and identifier.
pub open spec fn row_of_lane(
    competition: Seq<char>,
    run_time: Seq<char>,
    run: Seq<char>,
    l: LaneV,
) -> RowV {
    RowV {
        competition: competition,
        run_time: run_time,
        run: run,
        lane: l.lane,
        name: l.swimmer.name,
        year: l.swimmer.year,
        club: l.swimmer.club,
        time: l.time,
    }
}

/// The rows of one heat, in lane order.
pub open spec fn rows_of_run(competition: Seq<char>, r: RunV) -> Seq<RowV> {
    r.lanes.map_values(|l: LaneV| row_of_lane(competition, r.time, r.run, l))
}

/// The rows of a sequence of heats, in order.
pub open spec fn rows_of_runs(competition: Seq<char>, rs: Seq<RunV>) -> Seq<RowV>
    decreases rs.len(),
{
    if rs.len() == 0 {
        Seq::empty()
    } else {
        rows_of_runs(competition, rs.drop_last()) + rows_of_run(competition, rs.last())
    }
}

/// The rows of the whole tree, in tree order: competition by competition,
/// heat by heat, lane by lane.
pub open spec fn rows_of(cs: Seq<CompetitionV>) -> Seq<RowV>
    decreases cs.len(),
{
    if cs.len() == 0 {
        Seq::empty()
    } else {
        rows_of(cs.drop_last()) + rows_of_runs(cs.last().competition, cs.last().runs)
    }
}

// ---------------------------------------------------------------------------
// Executable flattener
// ---------------------------------------------------------------------------

/// Emits the rows of one heat under the given competition label.
fn flatten_run(competition: &String, r: &Run) -> (out: Vec<Row>)
    ensures
        row_views(out@) == rows_of_run(competition@, r@),
{
    let mut out: Vec<Row> = Vec::new();
    let mut k: usize = 0;
    while k < r.lane_list.len()
        invariant
            k <= r.lane_list@.len(),
            row_views(out@) == rows_of_run(competition@, r@).take(k as int),
        decreases r.lane_list@.len() - k,
    {
        let l = &r.lane_list[k];
        let row = Row {
            competition: competition.clone(),
            run_time: r.time.clone(),
            run: r.run.clone(),
            lane: l.lane.clone(),
            name: l.swimmer.name.clone(),
            year: l.swimmer.year.clone(),
            club: l.swimmer.club.clone(),
            time: l.time.clone(),
        };
        let ghost outv = out@;
        let ghost spec_rows = rows_of_run(competition@, r@);
        out.push(row);
        proof {
            crate::model::lemma_map_push(outv, |x: Row| x@, row);
            assert(row@ == spec_rows[k as int]);
            assert(spec_rows.take(k as int + 1) =~= spec_rows.take(k as int).push(
                spec_rows[k as int],
            ));
            assert(row_views(out@) =~= spec_rows.take(k as int + 1));
        }
        k += 1;
    }
    proof {
        assert(rows_of_run(competition@, r@).take(r.lane_list@.len() as int) =~= rows_of_run(
            competition@,
            r@,
        ));
    }
    out
}

/// Emits the rows of one competition, heat by heat.
fn flatten_competition(c: &Competition) -> (out: Vec<Row>)
    ensures
        row_views(out@) == rows_of_runs(c@.competition, c@.runs),
{
    let mut out: Vec<Row> = Vec::new();
    let mut j: usize = 0;
    while j < c.run_list.len()
        invariant
            j <= c.run_list@.len(),
            row_views(out@) == rows_of_runs(c@.competition, c@.runs.take(j as int)),
        decreases c.run_list@.len() - j,
    {
        let r = &c.run_list[j];
        let mut part = flatten_run(&c.competition, r);
        let ghost outv = out@;
        let ghost partv = part@;
        out.append(&mut part);
        proof {
            crate::model::lemma_map_add(outv, partv, |x: Row| x@);
            assert(c@.runs.take(j as int + 1).drop_last() =~= c@.runs.take(j as int));
            assert(c@.runs.take(j as int + 1).last() == c@.runs[j as int]);
            assert(c@.runs[j as int] == r@);
            assert(row_views(out@) =~= rows_of_runs(c@.competition, c@.runs.take(j as int + 1)));
        }
        j += 1;
    }
    proof {
        assert(c@.runs.take(c.run_list@.len() as int) =~= c@.runs);
    }
    out
}

/// Walks the assembled tree in order and emits one flat record per lane
/// result.
pub fn flatten(comps: &Vec<Competition>) -> (out: Vec<Row>)
    ensures
        row_views(out@) == rows_of(competition_views(comps@)),
{
    let mut out: Vec<Row> = Vec::new();
    let mut i: usize = 0;
    while i < comps.len()
        invariant
            i <= comps@.len(),
            row_views(out@) == rows_of(competition_views(comps@).take(i as int)),
        decreases comps@.len() - i,
    {
        let c = &comps[i];
        let mut part = flatten_competition(c);
        let ghost outv = out@;
        let ghost partv = part@;
        let ghost cv = competition_views(comps@);
        out.append(&mut part);
        proof {
            crate::model::lemma_map_add(outv, partv, |x: Row| x@);
            assert(cv.take(i as int + 1).drop_last() =~= cv.take(i as int));
            assert(cv.take(i as int + 1).last() == cv[i as int]);
            assert(cv[i as int] == c@);
            assert(row_views(out@) =~= rows_of(cv.take(i as int + 1)));
        }
        i += 1;
    }
    proof {
        assert(competition_views(comps@).take(comps@.len() as int) =~= competition_views(comps@));
    }
    out
}

// ---------------------------------------------------------------------------
// CSV rendering
// ---------------------------------------------------------------------------

/// The fixed header row, with the trailing reserved columns.
pub open spec fn csv_header() -> Seq<char> {
    "WK;Uhrzeit;Lauf;Bahn;Name;Jahrgang;Verein;Zeit;ZZ;ZZ;ZZ;ZZ;ZZ;ZZ;ZZ;ZZ;\n"@
}

/// One serialised row: the eight fields separated by semicolons, then the
/// reserved empty columns and the line break.
pub open spec fn csv_line(r: RowV) -> Seq<char> {
    r.competition + ";"@ + r.run_time + ";"@ + r.run + ";"@ + r.lane + ";"@ + r.name + ";"@
        + r.year + ";"@ + r.club + ";"@ + r.time + ";;;;;;;;;\n"@
}

/// The whole document: the header, then one line per row, in row order.
pub open spec fn csv_of(rows: Seq<RowV>) -> Seq<char>
    decreases rows.len(),
{
    if rows.len() == 0 {
        csv_header()
    } else {
        csv_of(rows.drop_last()) + csv_line(rows.last())
    }
}

/// Appends one serialised row to the text built so far.
#[verifier::rlimit(50)]
fn append_csv_line(prev: String, r: &Row) -> (out: String)
    ensures
        out@ == prev@ + csv_line(r@),
{
    let ghost pv = prev@;
    let mut out = prev;
    out.append(r.competition.as_str());
    out.append(";");
    out.append(r.run_time.as_str());
    out.append(";");
    out.append(r.run.as_str());
    out.append(";");
    out.append(r.lane.as_str());
    out.append(";");
    out.append(r.name.as_str());
    out.append(";");
    out.append(r.year.as_str());
    out.append(";");
    out.append(r.club.as_str());
    out.append(";");
    out.append(r.time.as_str());
    out.append(";;;;;;;;;\n");
    proof {
        assert(out@ =~= pv + csv_line(r@));
    }
    out
}

/// Renders the flat records as delimiter-separated text, preserving their
/// order exactly.
pub fn csv_of_rows(rows: &Vec<Row>) -> (out: String)
    ensures
        out@ == csv_of(row_views(rows@)),
{
    let mut out = String::from_str(
        "WK;Uhrzeit;Lauf;Bahn;Name;Jahrgang;Verein;Zeit;ZZ;ZZ;ZZ;ZZ;ZZ;ZZ;ZZ;ZZ;\n",
    );
    let mut i: usize = 0;
    while i < rows.len()
        invariant
            i <= rows@.len(),
            out@ == csv_of(row_views(rows@).take(i as int)),
        decreases rows@.len() - i,
    {
        let r = &rows[i];
        out = append_csv_line(out, r);
        proof {
            let rv = row_views(rows@);
            assert(rv.take(i as int + 1).drop_last() =~= rv.take(i as int));
            assert(rv.take(i as int + 1).last() == rv[i as int]);
            assert(rv[i as int] == r@);
            assert(out@ =~= csv_of(rv.take(i as int + 1)));
        }
        i += 1;
    }
    proof {
        assert(row_views(rows@).take(rows@.len() as int) =~= row_views(rows@));
    }
    out
}

// ---------------------------------------------------------------------------
// Participant roster: a pure derived view over the flat records
// ---------------------------------------------------------------------------

/// The participant a row carries.
pub open spec fn swimmer_of_row(r: RowV) -> SwimmerV {
    SwimmerV { name: r.name, year: r.year, club: r.club }
}

/// The index of the first roster entry with this name, or -1 if none has
/// it.
pub open spec fn find_name(s: Seq<SwimmerV>, name: Seq<char>) -> int
    decreases s.len(),
{
    if s.len() == 0 {
        -1
    } else if s[0].name == name {
        0
    } else {
        let r = find_name(s.drop_first(), name);
        if r == -1 {
            -1
        } else {
            r + 1
        }
    }
}

/// The deduplicated roster of the rows, keyed by participant name: one
/// entry per name, in order of first appearance, and on a name collision
/// the last row in scan order wins.
pub open spec fn roster_of(rows: Seq<RowV>) -> Seq<SwimmerV>
    decreases rows.len(),
{
    if rows.len() == 0 {
        Seq::empty()
    } else {
        let prev = roster_of(rows.drop_last());
        let sw = swimmer_of_row(rows.last());
        let i = find_name(prev, sw.name);
        if i == -1 {
            prev.push(sw)
        } else {
            prev.update(i, sw)
        }
    }
}

/// Where the first entry carrying `name` sits, if anywhere.
proof fn lemma_find_name_at(s: Seq<SwimmerV>, name: Seq<char>, i: int)
    requires
        0 <= i < s.len(),
        forall|j: int| 0 <= j < i ==> s[j].name != name,
        s[i].name == name,
    ensures
        find_name(s, name) == i,
    decreases i,
{
    if i > 0 {
        assert(forall|j: int| 0 <= j < i - 1 ==> s.drop_first()[j] == s[j + 1]);
        lemma_find_name_at(s.drop_first(), name, i - 1);
    }
}

/// A name that no entry carries is not found.
proof fn lemma_find_name_none(s: Seq<SwimmerV>, name: Seq<char>)
    requires
        forall|j: int| 0 <= j < s.len() ==> s[j].name != name,
    ensures
        find_name(s, name) == -1,
    decreases s.len(),
{
    if s.len() > 0 {
        assert(forall|j: int| 0 <= j < s.len() - 1 ==> s.drop_first()[j] == s[j + 1]);
        lemma_find_name_none(s.drop_first(), name);
    }
}

/// Finds the first roster entry with this name.
fn find_by_name(list: &Vec<Swimmer>, name: &String) -> (r: Option<usize>)
    ensures
        match r {
            Some(i) => i < list@.len() && find_name(swimmer_views(list@), name@) == i as int,
            None => find_name(swimmer_views(list@), name@) == -1,
        },
{
    let mut i: usize = 0;
    while i < list.len()
        invariant
            i <= list@.len(),
            forall|j: int| 0 <= j < i ==> swimmer_views(list@)[j].name != name@,
        decreases list@.len() - i,
    {
        if list[i].name == *name {
            proof {
                lemma_find_name_at(swimmer_views(list@), name@, i as int);
            }
            return Some(i);
        }
        i += 1;
    }
    proof {
        lemma_find_name_none(swimmer_views(list@), name@);
    }
    None
}

/// Builds the deduplicated participant roster from the flat records: an
/// explicit derived view, never touched during assembly. One entry per
/// participant name; on a collision the last row in scan order wins.
pub fn roster(rows: &Vec<Row>) -> (out: Vec<Swimmer>)
    ensures
        swimmer_views(out@) == roster_of(row_views(rows@)),
{
    let mut out: Vec<Swimmer> = Vec::new();
    let mut i: usize = 0;
    while i < rows.len()
        invariant
            i <= rows@.len(),
            swimmer_views(out@) == roster_of(row_views(rows@).take(i as int)),
        decreases rows@.len() - i,
    {
        let r = &rows[i];
        let sw = Swimmer { name: r.name.clone(), year: r.year.clone(), club: r.club.clone() };
        let ghost rv = row_views(rows@);
        proof {
            assert(rv.take(i as int + 1).drop_last() =~= rv.take(i as int));
            assert(rv.take(i as int + 1).last() == rv[i as int]);
            assert(rv[i as int] == r@);
            assert(sw@ == swimmer_of_row(rv[i as int]));
        }
        match find_by_name(&out, &sw.name) {
            Some(j) => {
                let ghost outv = out@;
                out.remove(j);
                out.insert(j, sw);
                proof {
                    assert(out@ =~= outv.update(j as int, sw));
                    assert(swimmer_views(out@) =~= swimmer_views(outv).update(j as int, sw@));
                    assert(swimmer_views(out@) =~= roster_of(rv.take(i as int + 1)));
                }
            },
            None => {
                let ghost outv = out@;
                out.push(sw);
                proof {
                    crate::model::lemma_map_push(outv, |x: Swimmer| x@, sw);
                    assert(swimmer_views(out@) =~= roster_of(rv.take(i as int + 1)));
                }
            },
        }
        i += 1;
    }
    proof {
        assert(row_views(rows@).take(rows@.len() as int) =~= row_views(rows@));
    }
    out
}

// ---------------------------------------------------------------------------
// Validation hook
// ---------------------------------------------------------------------------

/// The row-count check of the validation hook: a written document is
/// consistent when its line count exceeds the number of accepted starts by
/// exactly one, the header line.
pub fn row_count_consistent(csv_lines: usize, starts: usize) -> (r: bool)
    ensures
        r == (csv_lines as int == starts as int + 1),
{
    csv_lines >= 1 && csv_lines - 1 == starts
}

} // verus!
