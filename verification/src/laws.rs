//! The laws of the assembler, proved once and for all inputs: containment
//! (every child lies strictly after its container and before the next
//! container of that kind), conservation of the number of emitted rows,
//! preservation of scan order at every level, and pruning (no childless
//! container survives into the output).

use vstd::prelude::*;

use crate::assemble::assembled;
use crate::assemble::assign_lanes;
use crate::assemble::assign_runs;
use crate::assemble::lanes_above;
use crate::assemble::lanes_below;
use crate::assemble::prune_competitions_spec;
use crate::assemble::prune_runs_spec;
use crate::assemble::runs_above;
use crate::assemble::runs_below;
use crate::model::CompetitionV;
use crate::model::LaneV;
use crate::model::RunV;
use crate::extract::filtered_lanes;
use crate::extract::lemma_empty_filter_keeps_all;
use crate::model::competitions_ascending;
use crate::model::competitions_childless;
use crate::model::lanes_ascending;
use crate::model::runs_ascending;
use crate::model::runs_childless;
use crate::render::rows_of;
use crate::render::rows_of_runs;

verus! {

// ---------------------------------------------------------------------------
// The splits and prunes keep only elements of their input
// ---------------------------------------------------------------------------

/// A property of every pool element holds of every element above the cut.
proof fn lemma_lanes_above_all(pool: Seq<LaneV>, cut: int, p: spec_fn(LaneV) -> bool)
    requires
        forall|i: int| 0 <= i < pool.len() ==> p(#[trigger] pool[i]),
    ensures
        forall|i: int|
            0 <= i < lanes_above(pool, cut).len() ==> p(#[trigger] lanes_above(pool, cut)[i]),
    decreases pool.len(),
{
    if pool.len() > 0 {
        assert(forall|i: int| 0 <= i < pool.len() - 1 ==> pool.drop_last()[i] == pool[i]);
        lemma_lanes_above_all(pool.drop_last(), cut, p);
        let rest = lanes_above(pool.drop_last(), cut);
        let whole = lanes_above(pool, cut);
        if pool.last().offset > cut {
            assert forall|i: int| 0 <= i < whole.len() implies p(#[trigger] whole[i]) by {
                if i < rest.len() {
                    assert(whole[i] == rest[i]);
                } else {
                    assert(whole[i] == pool.last());
                }
            }
        }
    }
}

/// A property of every pool element holds of every element below the cut.
proof fn lemma_lanes_below_all(pool: Seq<LaneV>, cut: int, p: spec_fn(LaneV) -> bool)
    requires
        forall|i: int| 0 <= i < pool.len() ==> p(#[trigger] pool[i]),
    ensures
        forall|i: int|
            0 <= i < lanes_below(pool, cut).len() ==> p(#[trigger] lanes_below(pool, cut)[i]),
    decreases pool.len(),
{
    if pool.len() > 0 {
        assert(forall|i: int| 0 <= i < pool.len() - 1 ==> pool.drop_last()[i] == pool[i]);
        lemma_lanes_below_all(pool.drop_last(), cut, p);
        let rest = lanes_below(pool.drop_last(), cut);
        let whole = lanes_below(pool, cut);
        if pool.last().offset < cut {
            assert forall|i: int| 0 <= i < whole.len() implies p(#[trigger] whole[i]) by {
                if i < rest.len() {
                    assert(whole[i] == rest[i]);
                } else {
                    assert(whole[i] == pool.last());
                }
            }
        }
    }
}

/// A property of every pool element holds of every heat above the cut.
proof fn lemma_runs_above_all(pool: Seq<RunV>, cut: int, p: spec_fn(RunV) -> bool)
    requires
        forall|i: int| 0 <= i < pool.len() ==> p(#[trigger] pool[i]),
    ensures
        forall|i: int|
            0 <= i < runs_above(pool, cut).len() ==> p(#[trigger] runs_above(pool, cut)[i]),
    decreases pool.len(),
{
    if pool.len() > 0 {
        assert(forall|i: int| 0 <= i < pool.len() - 1 ==> pool.drop_last()[i] == pool[i]);
        lemma_runs_above_all(pool.drop_last(), cut, p);
        let rest = runs_above(pool.drop_last(), cut);
        let whole = runs_above(pool, cut);
        if pool.last().offset > cut {
            assert forall|i: int| 0 <= i < whole.len() implies p(#[trigger] whole[i]) by {
                if i < rest.len() {
                    assert(whole[i] == rest[i]);
                } else {
                    assert(whole[i] == pool.last());
                }
            }
        }
    }
}

/// A property of every pool element holds of every heat below the cut.
proof fn lemma_runs_below_all(pool: Seq<RunV>, cut: int, p: spec_fn(RunV) -> bool)
    requires
        forall|i: int| 0 <= i < pool.len() ==> p(#[trigger] pool[i]),
    ensures
        forall|i: int|
            0 <= i < runs_below(pool, cut).len() ==> p(#[trigger] runs_below(pool, cut)[i]),
    decreases pool.len(),
{
    if pool.len() > 0 {
        assert(forall|i: int| 0 <= i < pool.len() - 1 ==> pool.drop_last()[i] == pool[i]);
        lemma_runs_below_all(pool.drop_last(), cut, p);
        let rest = runs_below(pool.drop_last(), cut);
        let whole = runs_below(pool, cut);
        if pool.last().offset < cut {
            assert forall|i: int| 0 <= i < whole.len() implies p(#[trigger] whole[i]) by {
                if i < rest.len() {
                    assert(whole[i] == rest[i]);
                } else {
                    assert(whole[i] == pool.last());
                }
            }
        }
    }
}

/// A property of every heat holds of every heat that survives pruning.
proof fn lemma_prune_runs_all(rs: Seq<RunV>, p: spec_fn(RunV) -> bool)
    requires
        forall|i: int| 0 <= i < rs.len() ==> p(#[trigger] rs[i]),
    ensures
        forall|i: int|
            0 <= i < prune_runs_spec(rs).len() ==> p(#[trigger] prune_runs_spec(rs)[i]),
    decreases rs.len(),
{
    if rs.len() > 0 {
        assert(forall|i: int| 0 <= i < rs.len() - 1 ==> rs.drop_last()[i] == rs[i]);
        lemma_prune_runs_all(rs.drop_last(), p);
        let rest = prune_runs_spec(rs.drop_last());
        let whole = prune_runs_spec(rs);
        if rs.last().lanes.len() > 0 {
            assert forall|i: int| 0 <= i < whole.len() implies p(#[trigger] whole[i]) by {
                if i < rest.len() {
                    assert(whole[i] == rest[i]);
                } else {
                    assert(whole[i] == rs.last());
                }
            }
        }
    }
}

/// A property of every competition holds of every one that survives
/// pruning.
proof fn lemma_prune_competitions_all(cs: Seq<CompetitionV>, p: spec_fn(CompetitionV) -> bool)
    requires
        forall|i: int| 0 <= i < cs.len() ==> p(#[trigger] cs[i]),
    ensures
        forall|i: int|
            0 <= i < prune_competitions_spec(cs).len() ==> p(
                #[trigger] prune_competitions_spec(cs)[i],
            ),
    decreases cs.len(),
{
    if cs.len() > 0 {
        assert(forall|i: int| 0 <= i < cs.len() - 1 ==> cs.drop_last()[i] == cs[i]);
        lemma_prune_competitions_all(cs.drop_last(), p);
        let rest = prune_competitions_spec(cs.drop_last());
        let whole = prune_competitions_spec(cs);
        if cs.last().runs.len() > 0 {
            assert forall|i: int| 0 <= i < whole.len() implies p(#[trigger] whole[i]) by {
                if i < rest.len() {
                    assert(whole[i] == rest[i]);
                } else {
                    assert(whole[i] == cs.last());
                }
            }
        }
    }
}

// ---------------------------------------------------------------------------
// What the splits and prunes select
// ---------------------------------------------------------------------------

/// Everything above the cut lies strictly above it.
proof fn lemma_lanes_above_gt(pool: Seq<LaneV>, cut: int)
    ensures
        forall|i: int|
            0 <= i < lanes_above(pool, cut).len() ==> #[trigger] lanes_above(pool, cut)[i].offset
                > cut,
    decreases pool.len(),
{
    if pool.len() > 0 {
        lemma_lanes_above_gt(pool.drop_last(), cut);
        let rest = lanes_above(pool.drop_last(), cut);
        let whole = lanes_above(pool, cut);
        if pool.last().offset > cut {
            assert forall|i: int| 0 <= i < whole.len() implies #[trigger] whole[i].offset > cut by {
                if i < rest.len() {
                    assert(whole[i] == rest[i]);
                } else {
                    assert(whole[i] == pool.last());
                }
            }
        }
    }
}

/// Everything below the cut lies strictly below it.
proof fn lemma_lanes_below_lt(pool: Seq<LaneV>, cut: int)
    ensures
        forall|i: int|
            0 <= i < lanes_below(pool, cut).len() ==> #[trigger] lanes_below(pool, cut)[i].offset
                < cut,
    decreases pool.len(),
{
    if pool.len() > 0 {
        lemma_lanes_below_lt(pool.drop_last(), cut);
        let rest = lanes_below(pool.drop_last(), cut);
        let whole = lanes_below(pool, cut);
        if pool.last().offset < cut {
            assert forall|i: int| 0 <= i < whole.len() implies #[trigger] whole[i].offset < cut by {
                if i < rest.len() {
                    assert(whole[i] == rest[i]);
                } else {
                    assert(whole[i] == pool.last());
                }
            }
        }
    }
}

/// Every heat above the cut lies strictly above it.
proof fn lemma_runs_above_gt(pool: Seq<RunV>, cut: int)
    ensures
        forall|i: int|
            0 <= i < runs_above(pool, cut).len() ==> #[trigger] runs_above(pool, cut)[i].offset
                > cut,
    decreases pool.len(),
{
    if pool.len() > 0 {
        lemma_runs_above_gt(pool.drop_last(), cut);
        let rest = runs_above(pool.drop_last(), cut);
        let whole = runs_above(pool, cut);
        if pool.last().offset > cut {
            assert forall|i: int| 0 <= i < whole.len() implies #[trigger] whole[i].offset > cut by {
                if i < rest.len() {
                    assert(whole[i] == rest[i]);
                } else {
                    assert(whole[i] == pool.last());
                }
            }
        }
    }
}

/// Every heat below the cut lies strictly below it.
proof fn lemma_runs_below_lt(pool: Seq<RunV>, cut: int)
    ensures
        forall|i: int|
            0 <= i < runs_below(pool, cut).len() ==> #[trigger] runs_below(pool, cut)[i].offset
                < cut,
    decreases pool.len(),
{
    if pool.len() > 0 {
        lemma_runs_below_lt(pool.drop_last(), cut);
        let rest = runs_below(pool.drop_last(), cut);
        let whole = runs_below(pool, cut);
        if pool.last().offset < cut {
            assert forall|i: int| 0 <= i < whole.len() implies #[trigger] whole[i].offset < cut by {
                if i < rest.len() {
                    assert(whole[i] == rest[i]);
                } else {
                    assert(whole[i] == pool.last());
                }
            }
        }
    }
}

/// Every heat that survives pruning has a lane result.
proof fn lemma_prune_runs_pos(rs: Seq<RunV>)
    ensures
        forall|i: int|
            0 <= i < prune_runs_spec(rs).len() ==> #[trigger] prune_runs_spec(
                rs,
            )[i].lanes.len() > 0,
    decreases rs.len(),
{
    if rs.len() > 0 {
        lemma_prune_runs_pos(rs.drop_last());
        let rest = prune_runs_spec(rs.drop_last());
        let whole = prune_runs_spec(rs);
        if rs.last().lanes.len() > 0 {
            assert forall|i: int| 0 <= i < whole.len() implies #[trigger] whole[i].lanes.len()
                > 0 by {
                if i < rest.len() {
                    assert(whole[i] == rest[i]);
                } else {
                    assert(whole[i] == rs.last());
                }
            }
        }
    }
}

// ---------------------------------------------------------------------------
// The splits and prunes preserve ascending offsets
// ---------------------------------------------------------------------------

/// Splitting above a cut preserves strictly ascending offsets.
proof fn lemma_lanes_above_ascending(pool: Seq<LaneV>, cut: int)
    requires
        lanes_ascending(pool),
    ensures
        lanes_ascending(lanes_above(pool, cut)),
    decreases pool.len(),
{
    if pool.len() > 0 {
        assert(forall|i: int| 0 <= i < pool.len() - 1 ==> pool.drop_last()[i] == pool[i]);
        assert(lanes_ascending(pool.drop_last()));
        lemma_lanes_above_ascending(pool.drop_last(), cut);
        let last = pool.last();
        lemma_lanes_above_all(pool.drop_last(), cut, |l: LaneV| l.offset < last.offset);
        let rest = lanes_above(pool.drop_last(), cut);
        let whole = lanes_above(pool, cut);
        if last.offset > cut {
            assert forall|i: int, j: int| 0 <= i < j < whole.len() implies whole[i].offset
                < whole[j].offset by {
                if j < rest.len() {
                    assert(whole[i] == rest[i] && whole[j] == rest[j]);
                } else {
                    assert(whole[j] == last);
                    assert(whole[i] == rest[i]);
                }
            }
        }
    }
}

/// Splitting below a cut preserves strictly ascending offsets.
proof fn lemma_lanes_below_ascending(pool: Seq<LaneV>, cut: int)
    requires
        lanes_ascending(pool),
    ensures
        lanes_ascending(lanes_below(pool, cut)),
    decreases pool.len(),
{
    if pool.len() > 0 {
        assert(forall|i: int| 0 <= i < pool.len() - 1 ==> pool.drop_last()[i] == pool[i]);
        assert(lanes_ascending(pool.drop_last()));
        lemma_lanes_below_ascending(pool.drop_last(), cut);
        let last = pool.last();
        lemma_lanes_below_all(pool.drop_last(), cut, |l: LaneV| l.offset < last.offset);
        let rest = lanes_below(pool.drop_last(), cut);
        let whole = lanes_below(pool, cut);
        if last.offset < cut {
            assert forall|i: int, j: int| 0 <= i < j < whole.len() implies whole[i].offset
                < whole[j].offset by {
                if j < rest.len() {
                    assert(whole[i] == rest[i] && whole[j] == rest[j]);
                } else {
                    assert(whole[j] == last);
                    assert(whole[i] == rest[i]);
                }
            }
        }
    }
}

/// Splitting heats above a cut preserves strictly ascending offsets.
proof fn lemma_runs_above_ascending(pool: Seq<RunV>, cut: int)
    requires
        runs_ascending(pool),
    ensures
        runs_ascending(runs_above(pool, cut)),
    decreases pool.len(),
{
    if pool.len() > 0 {
        assert(forall|i: int| 0 <= i < pool.len() - 1 ==> pool.drop_last()[i] == pool[i]);
        assert(runs_ascending(pool.drop_last()));
        lemma_runs_above_ascending(pool.drop_last(), cut);
        let last = pool.last();
        lemma_runs_above_all(pool.drop_last(), cut, |l: RunV| l.offset < last.offset);
        let rest = runs_above(pool.drop_last(), cut);
        let whole = runs_above(pool, cut);
        if last.offset > cut {
            assert forall|i: int, j: int| 0 <= i < j < whole.len() implies whole[i].offset
                < whole[j].offset by {
                if j < rest.len() {
                    assert(whole[i] == rest[i] && whole[j] == rest[j]);
                } else {
                    assert(whole[j] == last);
                    assert(whole[i] == rest[i]);
                }
            }
        }
    }
}

/// Splitting heats below a cut preserves strictly ascending offsets.
proof fn lemma_runs_below_ascending(pool: Seq<RunV>, cut: int)
    requires
        runs_ascending(pool),
    ensures
        runs_ascending(runs_below(pool, cut)),
    decreases pool.len(),
{
    if pool.len() > 0 {
        assert(forall|i: int| 0 <= i < pool.len() - 1 ==> pool.drop_last()[i] == pool[i]);
        assert(runs_ascending(pool.drop_last()));
        lemma_runs_below_ascending(pool.drop_last(), cut);
        let last = pool.last();
        lemma_runs_below_all(pool.drop_last(), cut, |l: RunV| l.offset < last.offset);
        let rest = runs_below(pool.drop_last(), cut);
        let whole = runs_below(pool, cut);
        if last.offset < cut {
            assert forall|i: int, j: int| 0 <= i < j < whole.len() implies whole[i].offset
                < whole[j].offset by {
                if j < rest.len() {
                    assert(whole[i] == rest[i] && whole[j] == rest[j]);
                } else {
                    assert(whole[j] == last);
                    assert(whole[i] == rest[i]);
                }
            }
        }
    }
}

/// Pruning heats preserves strictly ascending offsets.
proof fn lemma_prune_runs_ascending(rs: Seq<RunV>)
    requires
        runs_ascending(rs),
    ensures
        runs_ascending(prune_runs_spec(rs)),
    decreases rs.len(),
{
    if rs.len() > 0 {
        assert(forall|i: int| 0 <= i < rs.len() - 1 ==> rs.drop_last()[i] == rs[i]);
        assert(runs_ascending(rs.drop_last()));
        lemma_prune_runs_ascending(rs.drop_last());
        let last = rs.last();
        lemma_prune_runs_all(rs.drop_last(), |l: RunV| l.offset < last.offset);
        let rest = prune_runs_spec(rs.drop_last());
        let whole = prune_runs_spec(rs);
        if last.lanes.len() > 0 {
            assert forall|i: int, j: int| 0 <= i < j < whole.len() implies whole[i].offset
                < whole[j].offset by {
                if j < rest.len() {
                    assert(whole[i] == rest[i] && whole[j] == rest[j]);
                } else {
                    assert(whole[j] == last);
                    assert(whole[i] == rest[i]);
                }
            }
        }
    }
}

// ---------------------------------------------------------------------------
// The assignment keeps each container's identity and bounds its children
// ---------------------------------------------------------------------------

/// Assignment fills lane lists but never reorders, drops, or alters the
/// containers themselves.
proof fn lemma_assign_lanes_shape(runs: Seq<RunV>, pool: Seq<LaneV>)
    ensures
        assign_lanes(runs, pool).len() == runs.len(),
        forall|i: int|
            0 <= i < runs.len() ==> {
                let r = #[trigger] assign_lanes(runs, pool)[i];
                r.offset == runs[i].offset && r.run == runs[i].run && r.time == runs[i].time
            },
    decreases runs.len(),
{
    if runs.len() > 0 {
        let c = runs.last();
        lemma_assign_lanes_shape(runs.drop_last(), lanes_below(pool, c.offset));
    }
}

/// Assignment fills heat lists but never reorders, drops, or alters the
/// competitions themselves.
proof fn lemma_assign_runs_shape(comps: Seq<CompetitionV>, pool: Seq<RunV>)
    ensures
        assign_runs(comps, pool).len() == comps.len(),
        forall|i: int|
            0 <= i < comps.len() ==> {
                let r = #[trigger] assign_runs(comps, pool)[i];
                r.offset == comps[i].offset && r.competition == comps[i].competition
            },
    decreases comps.len(),
{
    if comps.len() > 0 {
        let c = comps.last();
        lemma_assign_runs_shape(comps.drop_last(), runs_below(pool, c.offset));
    }
}

/// A property of every pool element holds of every lane result the
/// assignment hands out, wherever it lands.
proof fn lemma_assign_lanes_all(runs: Seq<RunV>, pool: Seq<LaneV>, p: spec_fn(LaneV) -> bool)
    requires
        runs_childless(runs),
        forall|i: int| 0 <= i < pool.len() ==> p(#[trigger] pool[i]),
    ensures
        forall|i: int, k: int|
            #![trigger assign_lanes(runs, pool)[i].lanes[k]]
            0 <= i < assign_lanes(runs, pool).len() && 0 <= k < assign_lanes(
                runs,
                pool,
            )[i].lanes.len() ==> p(assign_lanes(runs, pool)[i].lanes[k]),
    decreases runs.len(),
{
    if runs.len() > 0 {
        let c = runs.last();
        let mine = lanes_above(pool, c.offset);
        let rest_pool = lanes_below(pool, c.offset);
        assert(forall|i: int| 0 <= i < runs.len() - 1 ==> runs.drop_last()[i] == runs[i]);
        assert(runs_childless(runs.drop_last()));
        lemma_lanes_above_all(pool, c.offset, p);
        lemma_lanes_below_all(pool, c.offset, p);
        lemma_assign_lanes_all(runs.drop_last(), rest_pool, p);
        let front = assign_lanes(runs.drop_last(), rest_pool);
        let whole = assign_lanes(runs, pool);
        assert(c.lanes.len() == 0);
        assert(c.lanes + mine =~= mine);
        assert forall|i: int, k: int|
            0 <= i < whole.len() && 0 <= k < whole[i].lanes.len() implies p(
            whole[i].lanes[k],
        ) by {
            if i < front.len() {
                assert(whole[i] == front[i]);
            } else {
                assert(whole[i] == whole.last());
                assert(whole[i].lanes == mine);
            }
        }
    }
}

/// A property of every pool element holds of every heat the assignment
/// hands out, wherever it lands.
proof fn lemma_assign_runs_all(comps: Seq<CompetitionV>, pool: Seq<RunV>, p: spec_fn(RunV) -> bool)
    requires
        competitions_childless(comps),
        forall|i: int| 0 <= i < pool.len() ==> p(#[trigger] pool[i]),
    ensures
        forall|i: int, k: int|
            #![trigger assign_runs(comps, pool)[i].runs[k]]
            0 <= i < assign_runs(comps, pool).len() && 0 <= k < assign_runs(
                comps,
                pool,
            )[i].runs.len() ==> p(assign_runs(comps, pool)[i].runs[k]),
    decreases comps.len(),
{
    if comps.len() > 0 {
        let c = comps.last();
        let mine = runs_above(pool, c.offset);
        let rest_pool = runs_below(pool, c.offset);
        assert(forall|i: int| 0 <= i < comps.len() - 1 ==> comps.drop_last()[i] == comps[i]);
        assert(competitions_childless(comps.drop_last()));
        lemma_runs_above_all(pool, c.offset, p);
        lemma_runs_below_all(pool, c.offset, p);
        lemma_assign_runs_all(comps.drop_last(), rest_pool, p);
        let front = assign_runs(comps.drop_last(), rest_pool);
        let whole = assign_runs(comps, pool);
        assert(c.runs.len() == 0);
        assert(c.runs + mine =~= mine);
        assert forall|i: int, k: int|
            0 <= i < whole.len() && 0 <= k < whole[i].runs.len() implies p(whole[i].runs[k]) by {
            if i < front.len() {
                assert(whole[i] == front[i]);
            } else {
                assert(whole[i] == whole.last());
                assert(whole[i].runs == mine);
            }
        }
    }
}

// ---------------------------------------------------------------------------
// Containment correctness
// ---------------------------------------------------------------------------

/// Nearest-preceding-container law, lane results into heats: every lane
/// result assigned to a heat lies strictly after that heat's header, and,
/// where a next heat exists, strictly before it — so with ascending heats
/// the container is the heat with the largest offset still below the lane
/// result's.
pub proof fn lemma_lane_containment(runs: Seq<RunV>, pool: Seq<LaneV>)
    requires
        runs_ascending(runs),
        runs_childless(runs),
    ensures
        forall|i: int, k: int|
            #![trigger assign_lanes(runs, pool)[i].lanes[k]]
            0 <= i < assign_lanes(runs, pool).len() && 0 <= k < assign_lanes(
                runs,
                pool,
            )[i].lanes.len() ==> {
                let child = assign_lanes(runs, pool)[i].lanes[k];
                runs[i].offset < child.offset && (i + 1 < runs.len() ==> child.offset < runs[i
                    + 1].offset)
            },
    decreases runs.len(),
{
    if runs.len() > 0 {
        let c = runs.last();
        let mine = lanes_above(pool, c.offset);
        let rest_pool = lanes_below(pool, c.offset);
        assert(forall|i: int| 0 <= i < runs.len() - 1 ==> runs.drop_last()[i] == runs[i]);
        assert(runs_ascending(runs.drop_last()));
        assert(runs_childless(runs.drop_last()));
        lemma_lane_containment(runs.drop_last(), rest_pool);
        lemma_assign_lanes_shape(runs, pool);
        lemma_assign_lanes_shape(runs.drop_last(), rest_pool);
        lemma_lanes_above_gt(pool, c.offset);
        lemma_lanes_below_lt(pool, c.offset);
        lemma_assign_lanes_all(runs.drop_last(), rest_pool, |l: LaneV| l.offset < c.offset);
        let front = assign_lanes(runs.drop_last(), rest_pool);
        let whole = assign_lanes(runs, pool);
        assert(c.lanes.len() == 0);
        assert(c.lanes + mine =~= mine);
        assert forall|i: int, k: int|
            #![trigger whole[i].lanes[k]]
            0 <= i < whole.len() && 0 <= k < whole[i].lanes.len() implies {
            let child = whole[i].lanes[k];
            runs[i].offset < child.offset && (i + 1 < runs.len() ==> child.offset < runs[i
                + 1].offset)
        } by {
            if i < front.len() {
                assert(whole[i] == front[i]);
                assert(front[i].lanes[k].offset < c.offset);
            } else {
                assert(whole[i] == whole.last());
                assert(whole[i].lanes == mine);
                assert(mine[k].offset > c.offset);
            }
        }
    }
}

/// Nearest-preceding-container law, heats into competitions: the same law
/// one level up.
pub proof fn lemma_run_containment(comps: Seq<CompetitionV>, pool: Seq<RunV>)
    requires
        competitions_ascending(comps),
        competitions_childless(comps),
    ensures
        forall|i: int, k: int|
            #![trigger assign_runs(comps, pool)[i].runs[k]]
            0 <= i < assign_runs(comps, pool).len() && 0 <= k < assign_runs(
                comps,
                pool,
            )[i].runs.len() ==> {
                let child = assign_runs(comps, pool)[i].runs[k];
                comps[i].offset < child.offset && (i + 1 < comps.len() ==> child.offset < comps[i
                    + 1].offset)
            },
    decreases comps.len(),
{
    if comps.len() > 0 {
        let c = comps.last();
        let mine = runs_above(pool, c.offset);
        let rest_pool = runs_below(pool, c.offset);
        assert(forall|i: int| 0 <= i < comps.len() - 1 ==> comps.drop_last()[i] == comps[i]);
        assert(competitions_ascending(comps.drop_last()));
        assert(competitions_childless(comps.drop_last()));
        lemma_run_containment(comps.drop_last(), rest_pool);
        lemma_assign_runs_shape(comps, pool);
        lemma_assign_runs_shape(comps.drop_last(), rest_pool);
        lemma_runs_above_gt(pool, c.offset);
        lemma_runs_below_lt(pool, c.offset);
        lemma_assign_runs_all(comps.drop_last(), rest_pool, |l: RunV| l.offset < c.offset);
        let front = assign_runs(comps.drop_last(), rest_pool);
        let whole = assign_runs(comps, pool);
        assert(c.runs.len() == 0);
        assert(c.runs + mine =~= mine);
        assert forall|i: int, k: int|
            #![trigger whole[i].runs[k]]
            0 <= i < whole.len() && 0 <= k < whole[i].runs.len() implies {
            let child = whole[i].runs[k];
            comps[i].offset < child.offset && (i + 1 < comps.len() ==> child.offset < comps[i
                + 1].offset)
        } by {
            if i < front.len() {
                assert(whole[i] == front[i]);
                assert(front[i].runs[k].offset < c.offset);
            } else {
                assert(whole[i] == whole.last());
                assert(whole[i].runs == mine);
                assert(mine[k].offset > c.offset);
            }
        }
    }
}

// ---------------------------------------------------------------------------
// Pruning correctness
// ---------------------------------------------------------------------------

/// No childless container survives into the assembled tree: every
/// competition in the output has a heat, and every heat in it has a lane
/// result.
pub proof fn lemma_pruning(comps: Seq<CompetitionV>, runs: Seq<RunV>, lanes: Seq<LaneV>)
    requires
        competitions_childless(comps),
    ensures
        forall|i: int|
            0 <= i < assembled(comps, runs, lanes).len() ==> #[trigger] assembled(
                comps,
                runs,
                lanes,
            )[i].runs.len() > 0,
        forall|i: int, k: int|
            #![trigger assembled(comps, runs, lanes)[i].runs[k]]
            0 <= i < assembled(comps, runs, lanes).len() && 0 <= k < assembled(
                comps,
                runs,
                lanes,
            )[i].runs.len() ==> assembled(comps, runs, lanes)[i].runs[k].lanes.len() > 0,
{
    let filled = assign_lanes(runs, lanes);
    let kept = prune_runs_spec(filled);
    let tree = assign_runs(comps, kept);
    let out = prune_competitions_spec(tree);
    lemma_prune_runs_pos(filled);
    lemma_assign_runs_all(comps, kept, |r: RunV| r.lanes.len() > 0);
    lemma_prune_competitions_pos(tree);
    lemma_prune_competitions_all(tree, |c: CompetitionV| forall|k: int|
        0 <= k < c.runs.len() ==> #[trigger] c.runs[k].lanes.len() > 0);
    assert(out == assembled(comps, runs, lanes));
}

/// Every competition that survives pruning has a heat.
proof fn lemma_prune_competitions_pos(cs: Seq<CompetitionV>)
    ensures
        forall|i: int|
            0 <= i < prune_competitions_spec(cs).len() ==> #[trigger] prune_competitions_spec(
                cs,
            )[i].runs.len() > 0,
    decreases cs.len(),
{
    if cs.len() > 0 {
        lemma_prune_competitions_pos(cs.drop_last());
        let rest = prune_competitions_spec(cs.drop_last());
        let whole = prune_competitions_spec(cs);
        if cs.last().runs.len() > 0 {
            assert forall|i: int| 0 <= i < whole.len() implies #[trigger] whole[i].runs.len()
                > 0 by {
                if i < rest.len() {
                    assert(whole[i] == rest[i]);
                } else {
                    assert(whole[i] == cs.last());
                }
            }
        }
    }
}

// ---------------------------------------------------------------------------
// Order preservation
// ---------------------------------------------------------------------------

/// Pruning competitions preserves strictly ascending offsets.
proof fn lemma_prune_competitions_ascending(cs: Seq<CompetitionV>)
    requires
        competitions_ascending(cs),
    ensures
        competitions_ascending(prune_competitions_spec(cs)),
    decreases cs.len(),
{
    if cs.len() > 0 {
        assert(forall|i: int| 0 <= i < cs.len() - 1 ==> cs.drop_last()[i] == cs[i]);
        assert(competitions_ascending(cs.drop_last()));
        lemma_prune_competitions_ascending(cs.drop_last());
        let last = cs.last();
        lemma_prune_competitions_all(cs.drop_last(), |l: CompetitionV| l.offset < last.offset);
        let rest = prune_competitions_spec(cs.drop_last());
        let whole = prune_competitions_spec(cs);
        if last.runs.len() > 0 {
            assert forall|i: int, j: int| 0 <= i < j < whole.len() implies whole[i].offset
                < whole[j].offset by {
                if j < rest.len() {
                    assert(whole[i] == rest[i] && whole[j] == rest[j]);
                } else {
                    assert(whole[j] == last);
                    assert(whole[i] == rest[i]);
                }
            }
        }
    }
}

/// Assignment keeps the heats in scan order and each heat's lane results
/// in scan order.
proof fn lemma_assign_lanes_order(runs: Seq<RunV>, pool: Seq<LaneV>)
    requires
        runs_ascending(runs),
        runs_childless(runs),
        lanes_ascending(pool),
    ensures
        runs_ascending(assign_lanes(runs, pool)),
        forall|i: int|
            0 <= i < assign_lanes(runs, pool).len() ==> lanes_ascending(
                #[trigger] assign_lanes(runs, pool)[i].lanes,
            ),
    decreases runs.len(),
{
    if runs.len() > 0 {
        let c = runs.last();
        let mine = lanes_above(pool, c.offset);
        let rest_pool = lanes_below(pool, c.offset);
        assert(forall|i: int| 0 <= i < runs.len() - 1 ==> runs.drop_last()[i] == runs[i]);
        assert(runs_ascending(runs.drop_last()));
        assert(runs_childless(runs.drop_last()));
        lemma_lanes_above_ascending(pool, c.offset);
        lemma_lanes_below_ascending(pool, c.offset);
        lemma_assign_lanes_order(runs.drop_last(), rest_pool);
        lemma_assign_lanes_shape(runs, pool);
        lemma_assign_lanes_shape(runs.drop_last(), rest_pool);
        let front = assign_lanes(runs.drop_last(), rest_pool);
        let whole = assign_lanes(runs, pool);
        assert(c.lanes.len() == 0);
        assert(c.lanes + mine =~= mine);
        assert forall|i: int, j: int| 0 <= i < j < whole.len() implies whole[i].offset
            < whole[j].offset by {
            assert(whole[i].offset == runs[i].offset);
            assert(whole[j].offset == runs[j].offset);
        }
        assert forall|i: int| 0 <= i < whole.len() implies lanes_ascending(
            #[trigger] whole[i].lanes,
        ) by {
            if i < front.len() {
                assert(whole[i] == front[i]);
                assert(lanes_ascending(front[i].lanes));
            } else {
                assert(whole[i] == whole.last());
                assert(whole[i].lanes == mine);
            }
        }
    }
}

/// Assignment keeps the competitions in scan order and each competition's
/// heats in scan order.
proof fn lemma_assign_runs_order(comps: Seq<CompetitionV>, pool: Seq<RunV>)
    requires
        competitions_ascending(comps),
        competitions_childless(comps),
        runs_ascending(pool),
    ensures
        competitions_ascending(assign_runs(comps, pool)),
        forall|i: int|
            0 <= i < assign_runs(comps, pool).len() ==> runs_ascending(
                #[trigger] assign_runs(comps, pool)[i].runs,
            ),
    decreases comps.len(),
{
    if comps.len() > 0 {
        let c = comps.last();
        let mine = runs_above(pool, c.offset);
        let rest_pool = runs_below(pool, c.offset);
        assert(forall|i: int| 0 <= i < comps.len() - 1 ==> comps.drop_last()[i] == comps[i]);
        assert(competitions_ascending(comps.drop_last()));
        assert(competitions_childless(comps.drop_last()));
        lemma_runs_above_ascending(pool, c.offset);
        lemma_runs_below_ascending(pool, c.offset);
        lemma_assign_runs_order(comps.drop_last(), rest_pool);
        lemma_assign_runs_shape(comps, pool);
        lemma_assign_runs_shape(comps.drop_last(), rest_pool);
        let front = assign_runs(comps.drop_last(), rest_pool);
        let whole = assign_runs(comps, pool);
        assert(c.runs.len() == 0);
        assert(c.runs + mine =~= mine);
        assert forall|i: int, j: int| 0 <= i < j < whole.len() implies whole[i].offset
            < whole[j].offset by {
            assert(whole[i].offset == comps[i].offset);
            assert(whole[j].offset == comps[j].offset);
        }
        assert forall|i: int| 0 <= i < whole.len() implies runs_ascending(
            #[trigger] whole[i].runs,
        ) by {
            if i < front.len() {
                assert(whole[i] == front[i]);
                assert(runs_ascending(front[i].runs));
            } else {
                assert(whole[i] == whole.last());
                assert(whole[i].runs == mine);
            }
        }
    }
}

/// Order preservation: with the three inputs in scan order, the assembled
/// tree keeps that order at every level — the competitions, the heats
/// within each competition, and the lane results within each heat all
/// carry strictly ascending offsets.
pub proof fn lemma_order_preservation(
    comps: Seq<CompetitionV>,
    runs: Seq<RunV>,
    lanes: Seq<LaneV>,
)
    requires
        competitions_ascending(comps),
        competitions_childless(comps),
        runs_ascending(runs),
        runs_childless(runs),
        lanes_ascending(lanes),
    ensures
        competitions_ascending(assembled(comps, runs, lanes)),
        forall|i: int|
            0 <= i < assembled(comps, runs, lanes).len() ==> runs_ascending(
                #[trigger] assembled(comps, runs, lanes)[i].runs,
            ),
        forall|i: int, k: int|
            #![trigger assembled(comps, runs, lanes)[i].runs[k]]
            0 <= i < assembled(comps, runs, lanes).len() && 0 <= k < assembled(
                comps,
                runs,
                lanes,
            )[i].runs.len() ==> lanes_ascending(assembled(comps, runs, lanes)[i].runs[k].lanes),
{
    let filled = assign_lanes(runs, lanes);
    lemma_assign_lanes_order(runs, lanes);
    let kept = prune_runs_spec(filled);
    lemma_prune_runs_ascending(filled);
    lemma_prune_runs_all(filled, |r: RunV| lanes_ascending(r.lanes));
    let tree = assign_runs(comps, kept);
    lemma_assign_runs_order(comps, kept);
    lemma_assign_runs_all(comps, kept, |r: RunV| lanes_ascending(r.lanes));
    let out = prune_competitions_spec(tree);
    lemma_prune_competitions_ascending(tree);
    lemma_prune_competitions_all(tree, |c: CompetitionV| runs_ascending(c.runs));
    lemma_prune_competitions_all(
        tree,
        |c: CompetitionV|
            forall|k: int| 0 <= k < c.runs.len() ==> lanes_ascending(#[trigger] c.runs[k].lanes),
    );
    assert(out == assembled(comps, runs, lanes));
}

// ---------------------------------------------------------------------------
// Conservation
// ---------------------------------------------------------------------------

/// The number of lane results spread over a sequence of heats.
pub open spec fn total_lanes(rs: Seq<RunV>) -> int
    decreases rs.len(),
{
    if rs.len() == 0 {
        0
    } else {
        total_lanes(rs.drop_last()) + rs.last().lanes.len()
    }
}

/// The number of lane results spread over a whole tree.
pub open spec fn total_rows(cs: Seq<CompetitionV>) -> int
    decreases cs.len(),
{
    if cs.len() == 0 {
        0
    } else {
        total_rows(cs.drop_last()) + total_lanes(cs.last().runs)
    }
}

/// No lane result sits exactly on a heat's offset.
pub open spec fn no_lane_run_ties(lanes: Seq<LaneV>, runs: Seq<RunV>) -> bool {
    forall|i: int, j: int|
        0 <= i < lanes.len() && 0 <= j < runs.len() ==> #[trigger] lanes[i].offset
            != #[trigger] runs[j].offset
}

/// No heat sits exactly on a competition's offset.
pub open spec fn no_run_comp_ties(runs: Seq<RunV>, comps: Seq<CompetitionV>) -> bool {
    forall|i: int, j: int|
        0 <= i < runs.len() && 0 <= j < comps.len() ==> #[trigger] runs[i].offset
            != #[trigger] comps[j].offset
}

/// Appending one heat adds its lane count to the total.
proof fn lemma_total_lanes_push(s: Seq<RunV>, e: RunV)
    ensures
        total_lanes(s.push(e)) == total_lanes(s) + e.lanes.len(),
{
    assert(s.push(e).drop_last() =~= s);
    assert(s.push(e).last() == e);
}

/// Appending one competition adds its lane count to the total.
proof fn lemma_total_rows_push(s: Seq<CompetitionV>, e: CompetitionV)
    ensures
        total_rows(s.push(e)) == total_rows(s) + total_lanes(e.runs),
{
    assert(s.push(e).drop_last() =~= s);
    assert(s.push(e).last() == e);
}

/// A pool that lies entirely above the cut is returned whole.
proof fn lemma_runs_above_full(pool: Seq<RunV>, cut: int)
    requires
        forall|i: int| 0 <= i < pool.len() ==> #[trigger] pool[i].offset > cut,
    ensures
        runs_above(pool, cut) == pool,
    decreases pool.len(),
{
    if pool.len() > 0 {
        assert(forall|i: int| 0 <= i < pool.len() - 1 ==> pool.drop_last()[i] == pool[i]);
        lemma_runs_above_full(pool.drop_last(), cut);
        assert(runs_above(pool, cut) =~= pool);
    } else {
        assert(runs_above(pool, cut) =~= pool);
    }
}

/// Splitting heats at a cut that none sits on conserves the lane count.
proof fn lemma_runs_split_total(pool: Seq<RunV>, cut: int)
    requires
        forall|i: int| 0 <= i < pool.len() ==> #[trigger] pool[i].offset != cut,
    ensures
        total_lanes(runs_above(pool, cut)) + total_lanes(runs_below(pool, cut)) == total_lanes(
            pool,
        ),
    decreases pool.len(),
{
    if pool.len() > 0 {
        assert(forall|i: int| 0 <= i < pool.len() - 1 ==> pool.drop_last()[i] == pool[i]);
        lemma_runs_split_total(pool.drop_last(), cut);
        let x = pool.last();
        if x.offset > cut {
            lemma_total_lanes_push(runs_above(pool.drop_last(), cut), x);
        } else {
            lemma_total_lanes_push(runs_below(pool.drop_last(), cut), x);
        }
    }
}

/// Cutting first at a high offset and then, among what fell below, at a
/// low one selects together exactly what one cut at the low offset
/// selects — provided nothing sits exactly on the high cut.
proof fn lemma_lanes_above_compose(pool: Seq<LaneV>, lo: int, hi: int)
    requires
        lo < hi,
        forall|i: int| 0 <= i < pool.len() ==> #[trigger] pool[i].offset != hi,
    ensures
        lanes_above(lanes_below(pool, hi), lo).len() + lanes_above(pool, hi).len() == lanes_above(
            pool,
            lo,
        ).len(),
    decreases pool.len(),
{
    if pool.len() > 0 {
        assert(forall|i: int| 0 <= i < pool.len() - 1 ==> pool.drop_last()[i] == pool[i]);
        lemma_lanes_above_compose(pool.drop_last(), lo, hi);
        let x = pool.last();
        let below_rest = lanes_below(pool.drop_last(), hi);
        if x.offset < hi {
            assert(lanes_below(pool, hi) == below_rest.push(x));
            assert(below_rest.push(x).drop_last() =~= below_rest);
            assert(below_rest.push(x).last() == x);
        } else {
            assert(lanes_below(pool, hi) == below_rest);
        }
    }
}

/// How many lane results the assignment hands out in total: exactly those
/// of the pool that lie above the first heat — with ascending heats every
/// later heat only subdivides that same region.
proof fn lemma_assign_lanes_total(runs: Seq<RunV>, pool: Seq<LaneV>)
    requires
        runs_ascending(runs),
        runs_childless(runs),
        runs.len() > 0,
        no_lane_run_ties(pool, runs),
    ensures
        total_lanes(assign_lanes(runs, pool)) == lanes_above(pool, runs[0].offset).len(),
    decreases runs.len(),
{
    let c = runs.last();
    let mine = lanes_above(pool, c.offset);
    let rest_pool = lanes_below(pool, c.offset);
    let front = assign_lanes(runs.drop_last(), rest_pool);
    let filled = RunV { run: c.run, time: c.time, lanes: c.lanes + mine, offset: c.offset };
    assert(assign_lanes(runs, pool) == front.push(filled));
    lemma_total_lanes_push(front, filled);
    assert(c.lanes.len() == 0);
    assert(c.lanes + mine =~= mine);
    if runs.len() == 1 {
        assert(runs[0] == c);
        assert(total_lanes(front) == 0);
    } else {
        assert(forall|i: int| 0 <= i < runs.len() - 1 ==> runs.drop_last()[i] == runs[i]);
        assert(runs_ascending(runs.drop_last()));
        assert(runs_childless(runs.drop_last()));
        assert(runs[runs.len() - 1] == c);
        assert forall|i: int| 0 <= i < pool.len() implies #[trigger] pool[i].offset != c.offset by {
            assert(pool[i].offset != runs[runs.len() - 1].offset);
        }
        lemma_lanes_below_all(
            pool,
            c.offset,
            |l: LaneV|
                forall|j: int| 0 <= j < runs.len() ==> l.offset != #[trigger] runs[j].offset,
        );
        assert forall|i: int, j: int|
            0 <= i < rest_pool.len() && 0 <= j < runs.drop_last().len() implies #[trigger] rest_pool[i].offset
            != #[trigger] runs.drop_last()[j].offset by {
            assert(rest_pool[i].offset != runs[j].offset);
        }
        lemma_assign_lanes_total(runs.drop_last(), rest_pool);
        assert(runs.drop_last()[0] == runs[0]);
        lemma_lanes_above_compose(pool, runs[0].offset, c.offset);
    }
}

/// Pruning empty heats does not change the total lane count.
proof fn lemma_prune_runs_total(rs: Seq<RunV>)
    ensures
        total_lanes(prune_runs_spec(rs)) == total_lanes(rs),
    decreases rs.len(),
{
    if rs.len() > 0 {
        lemma_prune_runs_total(rs.drop_last());
        if rs.last().lanes.len() > 0 {
            lemma_total_lanes_push(prune_runs_spec(rs.drop_last()), rs.last());
        }
    }
}

/// How many lane results survive the second assignment: all of them,
/// provided every heat lies after the first competition.
proof fn lemma_assign_runs_total(comps: Seq<CompetitionV>, pool: Seq<RunV>)
    requires
        competitions_ascending(comps),
        competitions_childless(comps),
        comps.len() > 0,
        forall|i: int| 0 <= i < pool.len() ==> #[trigger] pool[i].offset > comps[0].offset,
        no_run_comp_ties(pool, comps),
    ensures
        total_rows(assign_runs(comps, pool)) == total_lanes(pool),
    decreases comps.len(),
{
    let c = comps.last();
    let mine = runs_above(pool, c.offset);
    let rest_pool = runs_below(pool, c.offset);
    let front = assign_runs(comps.drop_last(), rest_pool);
    let filled = CompetitionV {
        competition: c.competition,
        runs: c.runs + mine,
        offset: c.offset,
    };
    assert(assign_runs(comps, pool) == front.push(filled));
    lemma_total_rows_push(front, filled);
    assert(c.runs.len() == 0);
    assert(c.runs + mine =~= mine);
    assert(total_lanes(filled.runs) == total_lanes(mine));
    if comps.len() == 1 {
        assert(comps[0] == c);
        assert(total_rows(front) == 0);
        lemma_runs_above_full(pool, c.offset);
    } else {
        assert(forall|i: int| 0 <= i < comps.len() - 1 ==> comps.drop_last()[i] == comps[i]);
        assert(competitions_ascending(comps.drop_last()));
        assert(competitions_childless(comps.drop_last()));
        assert(comps[comps.len() - 1] == c);
        assert forall|i: int| 0 <= i < pool.len() implies #[trigger] pool[i].offset != c.offset by {
            assert(pool[i].offset != comps[comps.len() - 1].offset);
        }
        lemma_runs_below_all(
            pool,
            c.offset,
            |l: RunV| l.offset > comps[0].offset && forall|j: int|
                0 <= j < comps.len() ==> l.offset != #[trigger] comps[j].offset,
        );
        assert(comps.drop_last()[0] == comps[0]);
        assert forall|i: int| 0 <= i < rest_pool.len() implies #[trigger] rest_pool[i].offset
            > comps.drop_last()[0].offset by {}
        assert forall|i: int, j: int|
            0 <= i < rest_pool.len() && 0 <= j < comps.drop_last().len() implies #[trigger] rest_pool[i].offset
            != #[trigger] comps.drop_last()[j].offset by {
            assert(rest_pool[i].offset != comps[j].offset);
        }
        lemma_assign_runs_total(comps.drop_last(), rest_pool);
        lemma_runs_split_total(pool, c.offset);
    }
}

/// Pruning empty competitions does not change the total lane count.
proof fn lemma_prune_competitions_total(cs: Seq<CompetitionV>)
    ensures
        total_rows(prune_competitions_spec(cs)) == total_rows(cs),
    decreases cs.len(),
{
    if cs.len() > 0 {
        lemma_prune_competitions_total(cs.drop_last());
        if cs.last().runs.len() > 0 {
            lemma_total_rows_push(prune_competitions_spec(cs.drop_last()), cs.last());
        }
    }
}

/// One row per lane result of a heat sequence.
proof fn lemma_rows_of_runs_len(label: Seq<char>, rs: Seq<RunV>)
    ensures
        rows_of_runs(label, rs).len() == total_lanes(rs),
    decreases rs.len(),
{
    if rs.len() > 0 {
        lemma_rows_of_runs_len(label, rs.drop_last());
    }
}

/// One row per lane result of a whole tree.
proof fn lemma_rows_of_len(cs: Seq<CompetitionV>)
    ensures
        rows_of(cs).len() == total_rows(cs),
    decreases cs.len(),
{
    if cs.len() > 0 {
        lemma_rows_of_len(cs.drop_last());
        lemma_rows_of_runs_len(cs.last().competition, cs.last().runs);
    }
}

/// Conservation: the flattened output carries exactly one row per lane
/// result that lies after the first heat — none is lost in assembly or
/// pruning, and none is duplicated. This needs every heat to lie after
/// the first competition, and no offset ties between a lane result and a
/// heat or between a heat and a competition; a candidate sitting exactly
/// on a container's offset is dropped, and a heat before every
/// competition takes its lane results with it.
pub proof fn lemma_conservation(comps: Seq<CompetitionV>, runs: Seq<RunV>, lanes: Seq<LaneV>)
    requires
        competitions_ascending(comps),
        competitions_childless(comps),
        runs_ascending(runs),
        runs_childless(runs),
        comps.len() > 0,
        runs.len() > 0,
        forall|j: int| 0 <= j < runs.len() ==> comps[0].offset < #[trigger] runs[j].offset,
        no_lane_run_ties(lanes, runs),
        no_run_comp_ties(runs, comps),
    ensures
        rows_of(assembled(comps, runs, lanes)).len() == lanes_above(lanes, runs[0].offset).len(),
{
    let filled = assign_lanes(runs, lanes);
    lemma_assign_lanes_total(runs, lanes);
    let kept = prune_runs_spec(filled);
    lemma_prune_runs_total(filled);
    lemma_assign_lanes_shape(runs, lanes);
    assert forall|i: int| 0 <= i < filled.len() implies (#[trigger] filled[i].offset > comps[0].offset
        && forall|j: int| 0 <= j < comps.len() ==> filled[i].offset != #[trigger] comps[j].offset) by {
        assert(filled[i].offset == runs[i].offset);
        assert(comps[0].offset < runs[i].offset);
        assert forall|j: int| 0 <= j < comps.len() implies filled[i].offset
            != #[trigger] comps[j].offset by {
            assert(runs[i].offset != comps[j].offset);
        }
    }
    lemma_prune_runs_all(
        filled,
        |r: RunV| r.offset > comps[0].offset && forall|j: int|
            0 <= j < comps.len() ==> r.offset != #[trigger] comps[j].offset,
    );
    assert forall|i: int| 0 <= i < kept.len() implies #[trigger] kept[i].offset
        > comps[0].offset by {}
    assert forall|i: int, j: int|
        0 <= i < kept.len() && 0 <= j < comps.len() implies #[trigger] kept[i].offset
        != #[trigger] comps[j].offset by {}
    lemma_assign_runs_total(comps, kept);
    let tree = assign_runs(comps, kept);
    lemma_prune_competitions_total(tree);
    lemma_rows_of_len(prune_competitions_spec(tree));
    assert(prune_competitions_spec(tree) == assembled(comps, runs, lanes));
}

/// An empty affiliation filter excludes nothing: under the same offset
/// hygiene as [`lemma_conservation`], assembling the filtered lane
/// results yields exactly one row per scanned lane result that lies
/// after the first heat, whatever its affiliation.
pub proof fn lemma_empty_filter_conservation(
    comps: Seq<CompetitionV>,
    runs: Seq<RunV>,
    lanes: Seq<LaneV>,
    club: Seq<char>,
)
    requires
        club.len() == 0,
        competitions_ascending(comps),
        competitions_childless(comps),
        runs_ascending(runs),
        runs_childless(runs),
        comps.len() > 0,
        runs.len() > 0,
        forall|j: int| 0 <= j < runs.len() ==> comps[0].offset < #[trigger] runs[j].offset,
        no_lane_run_ties(lanes, runs),
        no_run_comp_ties(runs, comps),
    ensures
        rows_of(assembled(comps, runs, filtered_lanes(lanes, club))).len() == lanes_above(
            lanes,
            runs[0].offset,
        ).len(),
{
    lemma_empty_filter_keeps_all(lanes, club);
    lemma_conservation(comps, runs, lanes);
}

} // verus!
