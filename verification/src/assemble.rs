//! The hierarchical assembler: folds the three flat, offset-ordered lists
//! into a Competition -> Run -> Lane tree using offset-based containment,
//! and prunes containers that end up childless.
//!
//! Containers are processed in reverse offset order. Each container claims
//! every remaining candidate whose offset is strictly greater than its own;
//! candidates with a strictly smaller offset stay available for an earlier
//! container; a candidate whose offset equals the container's offset is
//! dropped. A candidate that precedes every container is dropped as well.

use vstd::prelude::*;

use crate::model::Competition;
use crate::model::CompetitionV;
use crate::model::Lane;
use crate::model::LaneV;
use crate::model::Run;
use crate::model::RunV;
use crate::model::competition_views;
use crate::model::lane_views;
use crate::model::lemma_map_add;
use crate::model::lemma_map_drop_last;
use crate::model::lemma_map_push;
use crate::model::run_views;

verus! {

// ---------------------------------------------------------------------------
// Specification: order-preserving splits of a candidate pool at a cut offset
// ---------------------------------------------------------------------------

/// The lane results of `pool`, in order, whose offset is strictly greater
/// than `cut`.
pub open spec fn lanes_above(pool: Seq<LaneV>, cut: int) -> Seq<LaneV>
    decreases pool.len(),
{
    if pool.len() == 0 {
        Seq::empty()
    } else {
        let rest = lanes_above(pool.drop_last(), cut);
        if pool.last().offset > cut {
            rest.push(pool.last())
        } else {
            rest
        }
    }
}

/// The lane results of `pool`, in order, whose offset is strictly smaller
/// than `cut`.
pub open spec fn lanes_below(pool: Seq<LaneV>, cut: int) -> Seq<LaneV>
    decreases pool.len(),
{
    if pool.len() == 0 {
        Seq::empty()
    } else {
        let rest = lanes_below(pool.drop_last(), cut);
        if pool.last().offset < cut {
            rest.push(pool.last())
        } else {
            rest
        }
    }
}

/// The heats of `pool`, in order, whose offset is strictly greater than
/// `cut`.
pub open spec fn runs_above(pool: Seq<RunV>, cut: int) -> Seq<RunV>
    decreases pool.len(),
{
    if pool.len() == 0 {
        Seq::empty()
    } else {
        let rest = runs_above(pool.drop_last(), cut);
        if pool.last().offset > cut {
            rest.push(pool.last())
        } else {
            rest
        }
    }
}

/// The heats of `pool`, in order, whose offset is strictly smaller than
/// `cut`.
pub open spec fn runs_below(pool: Seq<RunV>, cut: int) -> Seq<RunV>
    decreases pool.len(),
{
    if pool.len() == 0 {
        Seq::empty()
    } else {
        let rest = runs_below(pool.drop_last(), cut);
        if pool.last().offset < cut {
            rest.push(pool.last())
        } else {
            rest
        }
    }
}

// ---------------------------------------------------------------------------
// Specification: reverse-order assignment and pruning
// ---------------------------------------------------------------------------

/// The result of assigning `pool` to `runs`: containers are taken from the
/// last one backward, each extends its lane list with the candidates above
/// its offset, and the pool shrinks to the candidates below its offset.
pub open spec fn assign_lanes(runs: Seq<RunV>, pool: Seq<LaneV>) -> Seq<RunV>
    decreases runs.len(),
{
    if runs.len() == 0 {
        Seq::empty()
    } else {
        let c = runs.last();
        let filled = RunV {
            run: c.run,
            time: c.time,
            lanes: c.lanes + lanes_above(pool, c.offset),
            offset: c.offset,
        };
        assign_lanes(runs.drop_last(), lanes_below(pool, c.offset)).push(filled)
    }
}

/// The result of assigning `pool` to `comps`, one level up: same shape as
/// [`assign_lanes`].
pub open spec fn assign_runs(comps: Seq<CompetitionV>, pool: Seq<RunV>) -> Seq<CompetitionV>
    decreases comps.len(),
{
    if comps.len() == 0 {
        Seq::empty()
    } else {
        let c = comps.last();
        let filled = CompetitionV {
            competition: c.competition,
            runs: c.runs + runs_above(pool, c.offset),
            offset: c.offset,
        };
        assign_runs(comps.drop_last(), runs_below(pool, c.offset)).push(filled)
    }
}

/// The heats of `rs`, in order, that have at least one lane result.
pub open spec fn prune_runs_spec(rs: Seq<RunV>) -> Seq<RunV>
    decreases rs.len(),
{
    if rs.len() == 0 {
        Seq::empty()
    } else {
        let rest = prune_runs_spec(rs.drop_last());
        if rs.last().lanes.len() > 0 {
            rest.push(rs.last())
        } else {
            rest
        }
    }
}

/// The competitions of `cs`, in order, that have at least one heat.
pub open spec fn prune_competitions_spec(cs: Seq<CompetitionV>) -> Seq<CompetitionV>
    decreases cs.len(),
{
    if cs.len() == 0 {
        Seq::empty()
    } else {
        let rest = prune_competitions_spec(cs.drop_last());
        if cs.last().runs.len() > 0 {
            rest.push(cs.last())
        } else {
            rest
        }
    }
}

/// The whole assembly: lanes into heats, empty heats pruned, heats into
/// competitions, empty competitions pruned.
pub open spec fn assembled(
    comps: Seq<CompetitionV>,
    runs: Seq<RunV>,
    lanes: Seq<LaneV>,
) -> Seq<CompetitionV> {
    prune_competitions_spec(assign_runs(comps, prune_runs_spec(assign_lanes(runs, lanes))))
}

// ---------------------------------------------------------------------------
// Executable assembler
// ---------------------------------------------------------------------------

/// Splits `pool` at `cut`: candidates strictly above, candidates strictly
/// below, each in their original order. Candidates at exactly `cut` are
/// dropped.
fn partition_lanes(pool: Vec<Lane>, cut: usize) -> (r: (Vec<Lane>, Vec<Lane>))
    ensures
        lane_views(r.0@) == lanes_above(lane_views(pool@), cut as int),
        lane_views(r.1@) == lanes_below(lane_views(pool@), cut as int),
    decreases pool@.len(),
{
    let mut pool = pool;
    let ghost orig = pool@;
    if pool.len() == 0 {
        let above: Vec<Lane> = Vec::new();
        let below: Vec<Lane> = Vec::new();
        proof {
            assert(lane_views(above@) =~= lanes_above(lane_views(orig), cut as int));
            assert(lane_views(below@) =~= lanes_below(lane_views(orig), cut as int));
        }
        (above, below)
    } else {
        let x = pool.pop().unwrap();
        proof {
            lemma_map_drop_last(orig, |l: Lane| l@);
        }
        let (mut above, mut below) = partition_lanes(pool, cut);
        proof {
            assert(lane_views(orig).last() == x@);
        }
        if x.byte_offset > cut {
            proof {
                lemma_map_push(above@, |l: Lane| l@, x);
            }
            above.push(x);
        } else if x.byte_offset < cut {
            proof {
                lemma_map_push(below@, |l: Lane| l@, x);
            }
            below.push(x);
        }
        (above, below)
    }
}

/// Splits a pool of heats at `cut`, as [`partition_lanes`] does for lanes.
fn partition_runs(pool: Vec<Run>, cut: usize) -> (r: (Vec<Run>, Vec<Run>))
    ensures
        run_views(r.0@) == runs_above(run_views(pool@), cut as int),
        run_views(r.1@) == runs_below(run_views(pool@), cut as int),
    decreases pool@.len(),
{
    let mut pool = pool;
    let ghost orig = pool@;
    if pool.len() == 0 {
        let above: Vec<Run> = Vec::new();
        let below: Vec<Run> = Vec::new();
        proof {
            assert(run_views(above@) =~= runs_above(run_views(orig), cut as int));
            assert(run_views(below@) =~= runs_below(run_views(orig), cut as int));
        }
        (above, below)
    } else {
        let x = pool.pop().unwrap();
        proof {
            lemma_map_drop_last(orig, |l: Run| l@);
        }
        let (mut above, mut below) = partition_runs(pool, cut);
        proof {
            assert(run_views(orig).last() == x@);
        }
        if x.byte_offset > cut {
            proof {
                lemma_map_push(above@, |l: Run| l@, x);
            }
            above.push(x);
        } else if x.byte_offset < cut {
            proof {
                lemma_map_push(below@, |l: Run| l@, x);
            }
            below.push(x);
        }
        (above, below)
    }
}

/// Assigns every lane result of `pool` to its nearest preceding heat of
/// `runs`, processing heats from the last one backward. Lane results that
/// precede every heat, or that sit exactly on a heat's offset, are dropped.
pub fn attach_lanes(runs: Vec<Run>, pool: Vec<Lane>) -> (r: Vec<Run>)
    ensures
        run_views(r@) == assign_lanes(run_views(runs@), lane_views(pool@)),
    decreases runs@.len(),
{
    let mut runs = runs;
    let ghost origr = runs@;
    if runs.len() == 0 {
        proof {
            assert(run_views(origr) =~= Seq::<RunV>::empty());
            assert(run_views(runs@) =~= assign_lanes(run_views(origr), lane_views(pool@)));
        }
        runs
    } else {
        let c = runs.pop().unwrap();
        proof {
            lemma_map_drop_last(origr, |x: Run| x@);
            assert(run_views(origr).last() == c@);
        }
        let (mut mine, rest) = partition_lanes(pool, c.byte_offset);
        let mut front = attach_lanes(runs, rest);
        let Run { run, time, mut lane_list, byte_offset } = c;
        let ghost old_lanes = lane_list@;
        let ghost minev = mine@;
        lane_list.append(&mut mine);
        proof {
            lemma_map_add(old_lanes, minev, |x: Lane| x@);
        }
        let filled = Run { run, time, lane_list, byte_offset };
        let ghost frontv = front@;
        front.push(filled);
        proof {
            lemma_map_push(frontv, |x: Run| x@, filled);
            assert(run_views(front@) =~= assign_lanes(run_views(origr), lane_views(pool@)));
        }
        front
    }
}

/// Assigns every heat of `pool` to its nearest preceding competition of
/// `comps`, one level up from [`attach_lanes`].
pub fn attach_runs(comps: Vec<Competition>, pool: Vec<Run>) -> (r: Vec<Competition>)
    ensures
        competition_views(r@) == assign_runs(competition_views(comps@), run_views(pool@)),
    decreases comps@.len(),
{
    let mut comps = comps;
    let ghost origc = comps@;
    if comps.len() == 0 {
        proof {
            assert(competition_views(origc) =~= Seq::<CompetitionV>::empty());
            assert(competition_views(comps@) =~= assign_runs(
                competition_views(origc),
                run_views(pool@),
            ));
        }
        comps
    } else {
        let c = comps.pop().unwrap();
        proof {
            lemma_map_drop_last(origc, |x: Competition| x@);
            assert(competition_views(origc).last() == c@);
        }
        let (mut mine, rest) = partition_runs(pool, c.byte_offset);
        let mut front = attach_runs(comps, rest);
        let Competition { competition, mut run_list, byte_offset } = c;
        let ghost old_runs = run_list@;
        let ghost minev = mine@;
        run_list.append(&mut mine);
        proof {
            lemma_map_add(old_runs, minev, |x: Run| x@);
        }
        let filled = Competition { competition, run_list, byte_offset };
        let ghost frontv = front@;
        front.push(filled);
        proof {
            lemma_map_push(frontv, |x: Competition| x@, filled);
            assert(competition_views(front@) =~= assign_runs(
                competition_views(origc),
                run_views(pool@),
            ));
        }
        front
    }
}

/// Removes every heat whose lane list ended up empty; an order-preserving
/// filter, nothing else.
pub fn prune_runs(runs: Vec<Run>) -> (r: Vec<Run>)
    ensures
        run_views(r@) == prune_runs_spec(run_views(runs@)),
    decreases runs@.len(),
{
    let mut runs = runs;
    let ghost orig = runs@;
    if runs.len() == 0 {
        proof {
            assert(run_views(runs@) =~= prune_runs_spec(run_views(orig)));
        }
        runs
    } else {
        let c = runs.pop().unwrap();
        proof {
            lemma_map_drop_last(orig, |x: Run| x@);
            assert(run_views(orig).last() == c@);
        }
        let mut front = prune_runs(runs);
        if c.lane_list.len() > 0 {
            proof {
                lemma_map_push(front@, |x: Run| x@, c);
            }
            front.push(c);
        }
        front
    }
}

/// Removes every competition whose heat list ended up empty.
pub fn prune_competitions(comps: Vec<Competition>) -> (r: Vec<Competition>)
    ensures
        competition_views(r@) == prune_competitions_spec(competition_views(comps@)),
    decreases comps@.len(),
{
    let mut comps = comps;
    let ghost orig = comps@;
    if comps.len() == 0 {
        proof {
            assert(competition_views(comps@) =~= prune_competitions_spec(competition_views(orig)));
        }
        comps
    } else {
        let c = comps.pop().unwrap();
        proof {
            lemma_map_drop_last(orig, |x: Competition| x@);
            assert(competition_views(orig).last() == c@);
        }
        let mut front = prune_competitions(comps);
        if c.run_list.len() > 0 {
            proof {
                lemma_map_push(front@, |x: Competition| x@, c);
            }
            front.push(c);
        }
        front
    }
}

/// The whole assembly, as the pipeline runs it: lanes into heats, empty
/// heats pruned, heats into competitions, empty competitions pruned.
pub fn assemble(comps: Vec<Competition>, runs: Vec<Run>, lanes: Vec<Lane>) -> (r: Vec<Competition>)
    ensures
        competition_views(r@) == assembled(
            competition_views(comps@),
            run_views(runs@),
            lane_views(lanes@),
        ),
{
    let filled_runs = attach_lanes(runs, lanes);
    let kept_runs = prune_runs(filled_runs);
    let filled_comps = attach_runs(comps, kept_runs);
    prune_competitions(filled_comps)
}

} // verus!
