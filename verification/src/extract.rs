//! The extraction adapter: three independent left-to-right scans of the
//! text, one recognition rule per entity kind, each yielding the matched
//! fields and the byte offset of the matched span; and the affiliation
//! filter applied to lane results.
//!
//! The pattern matching itself is done by the `regex` crate behind trusted
//! wrappers; everything built on top of the matches is verified.

use vstd::prelude::*;

use crate::model::Competition;
use crate::model::CompetitionV;
use crate::model::Lane;
use crate::model::LaneV;
use crate::model::Run;
use crate::model::RunV;
use crate::model::Swimmer;
use crate::model::SwimmerV;
use crate::model::competition_views;
use crate::model::competitions_ascending;
use crate::model::lane_views;
use crate::model::lanes_ascending;
use crate::model::lemma_map_push;
use crate::model::run_views;
use crate::model::runs_ascending;

verus! {

// ---------------------------------------------------------------------------
// Trusted boundary around the regex crate
// ---------------------------------------------------------------------------

/// Declares regex::Regex to the verifier as an opaque type, so a compiled
/// pattern can sit in a field of [`Rule`].
#[verifier::external_type_specification]
#[verifier::external_body]
pub struct ExRegex(regex::Regex);

/// One pattern match: the text of every capture group (group 0 is the
/// whole match; a group that did not participate is empty) and the byte
/// offset at which the match starts.
pub struct Match {
    pub groups: Vec<String>,
    pub start: usize,
}

/// Mathematical model of a [`Match`].
pub ghost struct MatchV {
    pub groups: Seq<Seq<char>>,
    pub start: int,
}

impl View for Match {
    type V = MatchV;

    open spec fn view(&self) -> MatchV {
        MatchV {
            groups: self.groups@.map_values(|s: String| s@),
            start: self.start as int,
        }
    }
}

/// The models of a sequence of matches.
pub open spec fn match_views(s: Seq<Match>) -> Seq<MatchV> {
    s.map_values(|m: Match| m@)
}

/// What scanning a text with a pattern yields: the capture groups and
/// start offset of each match, in text order. A fixed function of the
/// pattern and the text alone.
pub uninterp spec fn matches_of(pattern: Seq<char>, text: Seq<char>) -> Seq<MatchV>;

/// Whether `regex::Regex::new` accepts this pattern: a fixed function of
/// the pattern's characters alone.
pub uninterp spec fn compiles(pattern: Seq<char>) -> bool;

/// A compiled recognition rule, remembering the pattern it was built
/// from; the pairing of the two fields is established by `compile_rule`
/// and never changed.
pub struct Rule {
    re: regex::Regex,
    pat: String,
}

impl Rule {
    /// The pattern this rule was compiled from.
    pub closed spec fn pattern(&self) -> Seq<char> {
        self.pat@
    }
}

/// Relies on regex::Regex::new: compiles the pattern, succeeding exactly
/// on the patterns the crate accepts, or fails on an invalid one.
#[verifier::external_body]
fn compile_rule(pattern: &str) -> (r: Option<Rule>)
    ensures
        (r is Some) == compiles(pattern@),
        r matches Some(rule) ==> rule.pattern() == pattern@,
{
    match regex::Regex::new(pattern) {
        Ok(re) => Some(Rule { re, pat: pattern.to_string() }),
        Err(_) => None,
    }
}

/// Relies on regex::Regex::captures_iter: yields the successive
/// non-overlapping matches of the rule in the text, in text order, so the
/// match start offsets strictly increase. Each match is converted with
/// Captures::iter, Captures::get, Match::start and Match::as_str; a group
/// that did not participate in the match becomes the empty string.
#[verifier::external_body]
fn scan(rule: &Rule, text: &str) -> (r: Vec<Match>)
    ensures
        match_views(r@) == matches_of(rule.pattern(), text@),
        forall|i: int, j: int| 0 <= i < j < r@.len() ==> r@[i].start < r@[j].start,
{
    rule.re
        .captures_iter(text)
        .map(|c| Match {
            groups: c
                .iter()
                .map(|g| match g {
                    Some(m) => m.as_str().to_string(),
                    None => String::new(),
                })
                .collect(),
            start: c.get(0).unwrap().start(),
        })
        .collect()
}

/// What `str::trim_end` returns for a string's characters.
pub uninterp spec fn trimmed_of(s: Seq<char>) -> Seq<char>;

/// Relies on str::trim_end: returns a prefix of the input, with trailing
/// whitespace removed; the result depends on the characters alone.
#[verifier::external_body]
fn trim_end(s: &str) -> (r: &str)
    ensures
        r@ == trimmed_of(s@),
        r@.len() <= s@.len(),
        r@ == s@.take(r@.len() as int),
{
    s.trim_end()
}

// ---------------------------------------------------------------------------
// Verified conversion of matches into entities
// ---------------------------------------------------------------------------

/// The text of capture group `i`, or the empty string where the match has
/// no such group.
pub open spec fn group(m: MatchV, i: int) -> Seq<char> {
    if 0 <= i < m.groups.len() {
        m.groups[i]
    } else {
        Seq::empty()
    }
}

/// The text of capture group `i` of this match.
fn group_text(m: &Match, i: usize) -> (r: String)
    ensures
        r@ == group(m@, i as int),
{
    if i < m.groups.len() {
        m.groups[i].clone()
    } else {
        String::new()
    }
}

/// The text of capture group `i`, with trailing whitespace removed.
fn group_text_trimmed(m: &Match, i: usize) -> (r: String)
    ensures
        r@ == trimmed_of(group(m@, i as int)),
{
    let g = group_text(m, i);
    trim_end(g.as_str()).to_owned()
}

/// The headless competition a match of the competition pattern yields:
/// the distance-and-stroke label, no heats yet, and the match offset.
pub open spec fn competition_of_match(m: MatchV) -> CompetitionV {
    CompetitionV { competition: group(m, 2), runs: Seq::empty(), offset: m.start }
}

/// The competitions of a sequence of matches, in order.
pub open spec fn competitions_of(ms: Seq<MatchV>) -> Seq<CompetitionV> {
    ms.map_values(|m: MatchV| competition_of_match(m))
}

/// The headless heat a match of the heat pattern yields: its number, its
/// scheduled time, no lane results yet, and the match offset.
pub open spec fn run_of_match(m: MatchV) -> RunV {
    RunV { run: group(m, 2), time: group(m, 4), lanes: Seq::empty(), offset: m.start }
}

/// The heats of a sequence of matches, in order.
pub open spec fn runs_of(ms: Seq<MatchV>) -> Seq<RunV> {
    ms.map_values(|m: MatchV| run_of_match(m))
}

/// The lane result a match of the lane pattern yields; the participant
/// name and affiliation are stripped of trailing whitespace.
pub open spec fn lane_of_match(m: MatchV) -> LaneV {
    LaneV {
        lane: group(m, 1),
        swimmer: SwimmerV {
            name: trimmed_of(group(m, 2)),
            year: group(m, 3),
            club: trimmed_of(group(m, 4)),
        },
        time: group(m, 5),
        offset: m.start,
    }
}

/// The lane results of a sequence of matches, in order.
pub open spec fn lanes_of(ms: Seq<MatchV>) -> Seq<LaneV> {
    ms.map_values(|m: MatchV| lane_of_match(m))
}

// ---------------------------------------------------------------------------
// The affiliation filter
// ---------------------------------------------------------------------------

/// Whether the filter keeps this lane result: an empty filter keeps all,
/// a non-empty one keeps exactly the lanes whose affiliation equals it.
pub open spec fn keeps(l: LaneV, club: Seq<char>) -> bool {
    club.len() == 0 || l.swimmer.club == club
}

/// The lane results the filter keeps, in their original order.
pub open spec fn filtered_lanes(s: Seq<LaneV>, club: Seq<char>) -> Seq<LaneV>
    decreases s.len(),
{
    if s.len() == 0 {
        Seq::empty()
    } else {
        let rest = filtered_lanes(s.drop_last(), club);
        if keeps(s.last(), club) {
            rest.push(s.last())
        } else {
            rest
        }
    }
}

/// An empty affiliation filter keeps every lane result, unchanged and in
/// order.
pub proof fn lemma_empty_filter_keeps_all(s: Seq<LaneV>, club: Seq<char>)
    requires
        club.len() == 0,
    ensures
        filtered_lanes(s, club) == s,
    decreases s.len(),
{
    if s.len() > 0 {
        lemma_empty_filter_keeps_all(s.drop_last(), club);
        assert(filtered_lanes(s, club) =~= s);
    }
}

/// Every kept lane result satisfies the filter.
proof fn lemma_filtered_keeps(s: Seq<LaneV>, club: Seq<char>)
    ensures
        forall|i: int|
            0 <= i < filtered_lanes(s, club).len() ==> keeps(
                #[trigger] filtered_lanes(s, club)[i],
                club,
            ),
    decreases s.len(),
{
    if s.len() > 0 {
        lemma_filtered_keeps(s.drop_last(), club);
        let rest = filtered_lanes(s.drop_last(), club);
        let whole = filtered_lanes(s, club);
        if keeps(s.last(), club) {
            assert forall|i: int| 0 <= i < whole.len() implies keeps(#[trigger] whole[i], club) by {
                if i < rest.len() {
                    assert(whole[i] == rest[i]);
                } else {
                    assert(whole[i] == s.last());
                }
            }
        }
    }
}

/// Applies the affiliation filter: an empty `club` keeps every lane
/// result; a non-empty one keeps exactly those whose affiliation equals
/// it, case-sensitively, in their original order.
pub fn filter_lanes(lanes: Vec<Lane>, club: &String) -> (r: Vec<Lane>)
    ensures
        lane_views(r@) == filtered_lanes(lane_views(lanes@), club@),
        club@.len() == 0 ==> lane_views(r@) == lane_views(lanes@),
        forall|i: int|
            0 <= i < lane_views(r@).len() ==> keeps(#[trigger] lane_views(r@)[i], club@),
    decreases lanes@.len(),
{
    let mut lanes = lanes;
    let ghost orig = lanes@;
    if lanes.len() == 0 {
        proof {
            assert(lane_views(lanes@) =~= filtered_lanes(lane_views(orig), club@));
            lemma_filtered_keeps(lane_views(orig), club@);
        }
        lanes
    } else {
        let x = lanes.pop().unwrap();
        proof {
            crate::model::lemma_map_drop_last(orig, |l: Lane| l@);
            assert(lane_views(orig).last() == x@);
        }
        let mut front = filter_lanes(lanes, club);
        let keep = club.as_str().is_empty() || x.swimmer.club == *club;
        if keep {
            proof {
                lemma_map_push(front@, |l: Lane| l@, x);
            }
            front.push(x);
        }
        proof {
            if club@.len() == 0 {
                lemma_empty_filter_keeps_all(lane_views(orig), club@);
            }
            lemma_filtered_keeps(lane_views(orig), club@);
        }
        front
    }
}

// ---------------------------------------------------------------------------
// The three scans
// ---------------------------------------------------------------------------

/// A recognition rule could not be compiled; terminal, no partial output.
#[derive(Debug, PartialEq, Eq, Structural)]
pub enum ScanError {
    InvalidRule,
}

/// The competition header pattern.
pub open spec fn competition_pattern() -> Seq<char> {
    "(Wettkampf\\s\\d+)\\s-\\s(\\d+\\s*m\\s+\\S+)\\s(\\S.+)"@
}

/// The heat header pattern.
pub open spec fn run_pattern() -> Seq<char> {
    "(Lauf\\s+)(\\d+)/(\\d+)\\s\\(ca.\\s(\\d+:\\d+)\\sUhr\\)"@
}

/// The lane result pattern.
pub open spec fn lane_pattern() -> Seq<char> {
    "(?:\\s*Bahn\\s+\\d+\\s*)*Bahn\\s+(\\d+)\\s+(\\D+)\\s+(\\d+(?:/AK\\s\\d+)?)\\s+(.+)\\s+(\\d+:\\d+,\\d+)"@
}

/// The competitions the text yields, in text order.
pub open spec fn scanned_competitions(text: Seq<char>) -> Seq<CompetitionV> {
    competitions_of(matches_of(competition_pattern(), text))
}

/// The heats the text yields, in text order.
pub open spec fn scanned_runs(text: Seq<char>) -> Seq<RunV> {
    runs_of(matches_of(run_pattern(), text))
}

/// The lane results the text yields, in text order, before filtering.
pub open spec fn scanned_lanes(text: Seq<char>) -> Seq<LaneV> {
    lanes_of(matches_of(lane_pattern(), text))
}

/// Scans the text for competition headers: every match, in text order,
/// becomes a headless competition carrying the match's start offset.
pub fn extract_competitions(text: &str) -> (r: Result<Vec<Competition>, ScanError>)
    ensures
        (r is Ok) == compiles(competition_pattern()),
        r matches Ok(cs) ==> competition_views(cs@) == scanned_competitions(text@),
        r matches Ok(cs) ==> competitions_ascending(competition_views(cs@)),
{
    let rule = match compile_rule("(Wettkampf\\s\\d+)\\s-\\s(\\d+\\s*m\\s+\\S+)\\s(\\S.+)") {
        Some(rule) => rule,
        None => {
            return Err(ScanError::InvalidRule);
        },
    };
    let ms = scan(&rule, text);
    let mut out: Vec<Competition> = Vec::new();
    let mut i: usize = 0;
    while i < ms.len()
        invariant
            i <= ms@.len(),
            out@.len() == i,
            competition_views(out@) == competitions_of(match_views(ms@).take(i as int)),
            forall|k: int| 0 <= k < i ==> out@[k].byte_offset == ms@[k].start,
        decreases ms@.len() - i,
    {
        let m = &ms[i];
        let competition = group_text(m, 2);
        let c = Competition { competition, run_list: Vec::new(), byte_offset: m.start };
        let ghost outv = out@;
        let ghost mv = match_views(ms@);
        proof {
            assert(mv[i as int] == m@);
            assert(c@.runs =~= Seq::<RunV>::empty());
            assert(c@ == competition_of_match(mv[i as int]));
        }
        out.push(c);
        proof {
            lemma_map_push(outv, |x: Competition| x@, c);
            assert(mv.take(i as int + 1).drop_last() =~= mv.take(i as int));
            assert(competition_views(out@) =~= competitions_of(mv.take(i as int + 1)));
        }
        i += 1;
    }
    proof {
        assert(match_views(ms@).take(ms@.len() as int) =~= match_views(ms@));
    }
    Ok(out)
}

/// Scans the text for heat headers: every match, in text order, becomes a
/// headless heat carrying the match's start offset.
pub fn extract_runs(text: &str) -> (r: Result<Vec<Run>, ScanError>)
    ensures
        (r is Ok) == compiles(run_pattern()),
        r matches Ok(rs) ==> run_views(rs@) == scanned_runs(text@),
        r matches Ok(rs) ==> runs_ascending(run_views(rs@)),
{
    let rule = match compile_rule("(Lauf\\s+)(\\d+)/(\\d+)\\s\\(ca.\\s(\\d+:\\d+)\\sUhr\\)") {
        Some(rule) => rule,
        None => {
            return Err(ScanError::InvalidRule);
        },
    };
    let ms = scan(&rule, text);
    let mut out: Vec<Run> = Vec::new();
    let mut i: usize = 0;
    while i < ms.len()
        invariant
            i <= ms@.len(),
            out@.len() == i,
            run_views(out@) == runs_of(match_views(ms@).take(i as int)),
            forall|k: int| 0 <= k < i ==> out@[k].byte_offset == ms@[k].start,
        decreases ms@.len() - i,
    {
        let m = &ms[i];
        let run = group_text(m, 2);
        let time = group_text(m, 4);
        let c = Run { run, time, lane_list: Vec::new(), byte_offset: m.start };
        let ghost outv = out@;
        let ghost mv = match_views(ms@);
        proof {
            assert(mv[i as int] == m@);
            assert(c@.lanes =~= Seq::<LaneV>::empty());
            assert(c@ == run_of_match(mv[i as int]));
        }
        out.push(c);
        proof {
            lemma_map_push(outv, |x: Run| x@, c);
            assert(mv.take(i as int + 1).drop_last() =~= mv.take(i as int));
            assert(run_views(out@) =~= runs_of(mv.take(i as int + 1)));
        }
        i += 1;
    }
    proof {
        assert(match_views(ms@).take(ms@.len() as int) =~= match_views(ms@));
    }
    Ok(out)
}

/// Scans the text for lane result rows and applies the affiliation
/// filter: every match, in text order, becomes a lane result carrying the
/// match's start offset; only those the filter keeps are returned.
pub fn extract_lanes(text: &str, club: &String) -> (r: Result<Vec<Lane>, ScanError>)
    ensures
        (r is Ok) == compiles(lane_pattern()),
        r matches Ok(ls) ==> lane_views(ls@) == filtered_lanes(scanned_lanes(text@), club@),
        r matches Ok(ls) ==> lanes_ascending(lane_views(ls@)),
{
    let rule = match compile_rule(
        "(?:\\s*Bahn\\s+\\d+\\s*)*Bahn\\s+(\\d+)\\s+(\\D+)\\s+(\\d+(?:/AK\\s\\d+)?)\\s+(.+)\\s+(\\d+:\\d+,\\d+)",
    ) {
        Some(rule) => rule,
        None => {
            return Err(ScanError::InvalidRule);
        },
    };
    let ms = scan(&rule, text);
    let mut all: Vec<Lane> = Vec::new();
    let mut i: usize = 0;
    while i < ms.len()
        invariant
            i <= ms@.len(),
            all@.len() == i,
            lane_views(all@) == lanes_of(match_views(ms@).take(i as int)),
            forall|k: int| 0 <= k < i ==> all@[k].byte_offset == ms@[k].start,
        decreases ms@.len() - i,
    {
        let m = &ms[i];
        let lane = group_text(m, 1);
        let name = group_text_trimmed(m, 2);
        let year = group_text(m, 3);
        let club_field = group_text_trimmed(m, 4);
        let time = group_text(m, 5);
        let swimmer = Swimmer { name, year, club: club_field };
        let l = Lane { lane, swimmer, time, byte_offset: m.start };
        let ghost allv = all@;
        let ghost mv = match_views(ms@);
        proof {
            assert(mv[i as int] == m@);
            assert(l@ == lane_of_match(mv[i as int]));
        }
        all.push(l);
        proof {
            lemma_map_push(allv, |x: Lane| x@, l);
            assert(mv.take(i as int + 1).drop_last() =~= mv.take(i as int));
            assert(lane_views(all@) =~= lanes_of(mv.take(i as int + 1)));
        }
        i += 1;
    }
    proof {
        assert(match_views(ms@).take(ms@.len() as int) =~= match_views(ms@));
    }
    let ghost allv = lane_views(all@);
    let kept = filter_lanes(all, club);
    proof {
        lemma_filtered_ascending(allv, club@);
    }
    Ok(kept)
}

/// The filter preserves strictly ascending offsets.
proof fn lemma_filtered_ascending(s: Seq<LaneV>, club: Seq<char>)
    requires
        lanes_ascending(s),
    ensures
        lanes_ascending(filtered_lanes(s, club)),
    decreases s.len(),
{
    if s.len() > 0 {
        assert(lanes_ascending(s.drop_last()));
        lemma_filtered_ascending(s.drop_last(), club);
        lemma_filtered_below(s.drop_last(), club, s.last().offset);
    }
}

/// Every lane the filter keeps from a pool below a bound stays below it.
proof fn lemma_filtered_below(s: Seq<LaneV>, club: Seq<char>, bound: int)
    requires
        forall|i: int| 0 <= i < s.len() ==> s[i].offset < bound,
    ensures
        forall|i: int|
            0 <= i < filtered_lanes(s, club).len() ==> #[trigger] filtered_lanes(s, club)[i].offset
                < bound,
    decreases s.len(),
{
    if s.len() > 0 {
        lemma_filtered_below(s.drop_last(), club, bound);
        let rest = filtered_lanes(s.drop_last(), club);
        let whole = filtered_lanes(s, club);
        if keeps(s.last(), club) {
            assert forall|i: int| 0 <= i < whole.len() implies #[trigger] whole[i].offset
                < bound by {
                if i < rest.len() {
                    assert(whole[i] == rest[i]);
                } else {
                    assert(whole[i] == s.last());
                }
            }
        }
    }
}

} // verus!
