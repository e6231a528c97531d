//! The entity model: a participant, one timed lane result, a heat (`Run`),
//! a competition, and the flat output row. Every positional entity carries
//! the byte offset of the text span it was recognised in; that offset is
//! the sole ordering signal the assembler uses.

use vstd::prelude::*;

verus! {

/// A participant: plain value, owned by the lane result it appears in.
#[derive(Debug, Clone, PartialEq, Eq)]
pub struct Swimmer {
    pub name: String,
    pub year: String,
    pub club: String,
}

/// Mathematical model of a [`Swimmer`].
pub ghost struct SwimmerV {
    pub name: Seq<char>,
    pub year: Seq<char>,
    pub club: Seq<char>,
}

impl View for Swimmer {
    type V = SwimmerV;

    open spec fn view(&self) -> SwimmerV {
        SwimmerV { name: self.name@, year: self.year@, club: self.club@ }
    }
}

/// One timed result: a lane, its participant, the elapsed time, and the
/// offset of the matched span in the source text.
#[derive(Debug, Clone, PartialEq, Eq)]
pub struct Lane {
    pub lane: String,
    pub swimmer: Swimmer,
    pub time: String,
    pub byte_offset: usize,
}

/// Mathematical model of a [`Lane`].
pub ghost struct LaneV {
    pub lane: Seq<char>,
    pub swimmer: SwimmerV,
    pub time: Seq<char>,
    pub offset: int,
}

impl View for Lane {
    type V = LaneV;

    open spec fn view(&self) -> LaneV {
        LaneV {
            lane: self.lane@,
            swimmer: self.swimmer@,
            time: self.time@,
            offset: self.byte_offset as int,
        }
    }
}

/// A heat: identifier, scheduled time, its lane results (empty until
/// assembly), and the offset of its header in the source text.
#[derive(Debug, Clone, PartialEq, Eq)]
pub struct Run {
    pub run: String,
    pub time: String,
    pub lane_list: Vec<Lane>,
    pub byte_offset: usize,
}

/// Mathematical model of a [`Run`].
pub ghost struct RunV {
    pub run: Seq<char>,
    pub time: Seq<char>,
    pub lanes: Seq<LaneV>,
    pub offset: int,
}

impl View for Run {
    type V = RunV;

    open spec fn view(&self) -> RunV {
        RunV {
            run: self.run@,
            time: self.time@,
            lanes: lane_views(self.lane_list@),
            offset: self.byte_offset as int,
        }
    }
}

/// A competition: label, its heats (empty until assembly), and the offset
/// of its header in the source text.
#[derive(Debug, Clone, PartialEq, Eq)]
pub struct Competition {
    pub competition: String,
    pub run_list: Vec<Run>,
    pub byte_offset: usize,
}

/// Mathematical model of a [`Competition`].
pub ghost struct CompetitionV {
    pub competition: Seq<char>,
    pub runs: Seq<RunV>,
    pub offset: int,
}

impl View for Competition {
    type V = CompetitionV;

    open spec fn view(&self) -> CompetitionV {
        CompetitionV {
            competition: self.competition@,
            runs: run_views(self.run_list@),
            offset: self.byte_offset as int,
        }
    }
}

/// One flat output record: everything a serialised row carries.
#[derive(Debug, Clone, PartialEq, Eq)]
pub struct Row {
    pub competition: String,
    pub run_time: String,
    pub run: String,
    pub lane: String,
    pub name: String,
    pub year: String,
    pub club: String,
    pub time: String,
}

/// Mathematical model of a [`Row`].
pub ghost struct RowV {
    pub competition: Seq<char>,
    pub run_time: Seq<char>,
    pub run: Seq<char>,
    pub lane: Seq<char>,
    pub name: Seq<char>,
    pub year: Seq<char>,
    pub club: Seq<char>,
    pub time: Seq<char>,
}

impl View for Row {
    type V = RowV;

    open spec fn view(&self) -> RowV {
        RowV {
            competition: self.competition@,
            run_time: self.run_time@,
            run: self.run@,
            lane: self.lane@,
            name: self.name@,
            year: self.year@,
            club: self.club@,
            time: self.time@,
        }
    }
}

/// The models of a sequence of lane results.
pub open spec fn lane_views(s: Seq<Lane>) -> Seq<LaneV> {
    s.map_values(|x: Lane| x@)
}

/// The models of a sequence of heats.
pub open spec fn run_views(s: Seq<Run>) -> Seq<RunV> {
    s.map_values(|x: Run| x@)
}

/// The models of a sequence of competitions.
pub open spec fn competition_views(s: Seq<Competition>) -> Seq<CompetitionV> {
    s.map_values(|x: Competition| x@)
}

/// The models of a sequence of rows.
pub open spec fn row_views(s: Seq<Row>) -> Seq<RowV> {
    s.map_values(|x: Row| x@)
}

/// The models of a sequence of participants.
pub open spec fn swimmer_views(s: Seq<Swimmer>) -> Seq<SwimmerV> {
    s.map_values(|x: Swimmer| x@)
}

/// The offsets of a lane result sequence strictly increase.
pub open spec fn lanes_ascending(s: Seq<LaneV>) -> bool {
    forall|i: int, j: int| 0 <= i < j < s.len() ==> s[i].offset < s[j].offset
}

/// The offsets of a heat sequence strictly increase.
pub open spec fn runs_ascending(s: Seq<RunV>) -> bool {
    forall|i: int, j: int| 0 <= i < j < s.len() ==> s[i].offset < s[j].offset
}

/// The offsets of a competition sequence strictly increase.
pub open spec fn competitions_ascending(s: Seq<CompetitionV>) -> bool {
    forall|i: int, j: int| 0 <= i < j < s.len() ==> s[i].offset < s[j].offset
}

/// Every heat still has an empty lane list, as scans produce them.
pub open spec fn runs_childless(s: Seq<RunV>) -> bool {
    forall|i: int| 0 <= i < s.len() ==> s[i].lanes.len() == 0
}

/// Every competition still has an empty heat list, as scans produce them.
pub open spec fn competitions_childless(s: Seq<CompetitionV>) -> bool {
    forall|i: int| 0 <= i < s.len() ==> s[i].runs.len() == 0
}

/// Mapping a sequence commutes with dropping its last element.
pub proof fn lemma_map_drop_last<A, B>(s: Seq<A>, f: spec_fn(A) -> B)
    requires
        s.len() > 0,
    ensures
        s.drop_last().map_values(f) =~= s.map_values(f).drop_last(),
{
}

/// Mapping a sequence commutes with pushing an element.
pub proof fn lemma_map_push<A, B>(s: Seq<A>, f: spec_fn(A) -> B, x: A)
    ensures
        s.push(x).map_values(f) =~= s.map_values(f).push(f(x)),
{
}

/// Mapping a sequence distributes over concatenation.
pub proof fn lemma_map_add<A, B>(a: Seq<A>, b: Seq<A>, f: spec_fn(A) -> B)
    ensures
        (a + b).map_values(f) =~= a.map_values(f) + b.map_values(f),
{
}

} // verus!
