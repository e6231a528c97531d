use heatsheet::assemble::assemble;
use heatsheet::assemble::attach_lanes;
use heatsheet::assemble::prune_competitions;
use heatsheet::assemble::prune_runs;
use heatsheet::extract::filter_lanes;
use heatsheet::model::Competition;
use heatsheet::model::Lane;
use heatsheet::model::Row;
use heatsheet::model::Run;
use heatsheet::model::Swimmer;
use heatsheet::render::csv_of_rows;
use heatsheet::render::flatten;
use heatsheet::render::roster;
use heatsheet::render::row_count_consistent;

fn swimmer(name: &str, year: &str, club: &str) -> Swimmer {
    Swimmer { name: name.to_string(), year: year.to_string(), club: club.to_string() }
}

fn lane_at(offset: usize, name: &str, club: &str) -> Lane {
    Lane {
        lane: format!("{}", offset % 10),
        swimmer: swimmer(name, "2008", club),
        time: "01:23,45".to_string(),
        byte_offset: offset,
    }
}

fn run_at(offset: usize, number: &str) -> Run {
    Run {
        run: number.to_string(),
        time: "10:30".to_string(),
        lane_list: Vec::new(),
        byte_offset: offset,
    }
}

fn comp_at(offset: usize, label: &str) -> Competition {
    Competition { competition: label.to_string(), run_list: Vec::new(), byte_offset: offset }
}

fn example_comps() -> Vec<Competition> {
    vec![comp_at(10, "100 m Freistil"), comp_at(500, "200 m Brust")]
}

fn example_runs() -> Vec<Run> {
    vec![run_at(20, "1"), run_at(50, "2"), run_at(520, "1")]
}

fn example_lanes() -> Vec<Lane> {
    vec![
        lane_at(25, "Anna", "SV Test"),
        lane_at(30, "Bert", "SV Test"),
        lane_at(55, "Cleo", "SV Test"),
        lane_at(525, "Dora", "SV Test"),
        lane_at(530, "Emil", "SV Test"),
    ]
}

#[test]
fn assembles_example_tree() {
    let tree = assemble(example_comps(), example_runs(), example_lanes());
    assert_eq!(tree.len(), 2);
    assert_eq!(tree[0].byte_offset, 10);
    assert_eq!(tree[0].run_list.len(), 2);
    assert_eq!(tree[0].run_list[0].byte_offset, 20);
    assert_eq!(tree[0].run_list[0].lane_list.len(), 2);
    assert_eq!(tree[0].run_list[0].lane_list[0].byte_offset, 25);
    assert_eq!(tree[0].run_list[0].lane_list[1].byte_offset, 30);
    assert_eq!(tree[0].run_list[1].byte_offset, 50);
    assert_eq!(tree[0].run_list[1].lane_list.len(), 1);
    assert_eq!(tree[0].run_list[1].lane_list[0].byte_offset, 55);
    assert_eq!(tree[1].byte_offset, 500);
    assert_eq!(tree[1].run_list.len(), 1);
    assert_eq!(tree[1].run_list[0].byte_offset, 520);
    assert_eq!(tree[1].run_list[0].lane_list.len(), 2);
    assert_eq!(tree[1].run_list[0].lane_list[0].byte_offset, 525);
    assert_eq!(tree[1].run_list[0].lane_list[1].byte_offset, 530);
}

#[test]
fn example_flattens_to_five_rows_in_order() {
    let tree = assemble(example_comps(), example_runs(), example_lanes());
    let rows = flatten(&tree);
    assert_eq!(rows.len(), 5);
    let names: Vec<&str> = rows.iter().map(|r| r.name.as_str()).collect();
    assert_eq!(names, vec!["Anna", "Bert", "Cleo", "Dora", "Emil"]);
    assert_eq!(rows[0].competition, "100 m Freistil");
    assert_eq!(rows[2].competition, "100 m Freistil");
    assert_eq!(rows[3].competition, "200 m Brust");
    assert_eq!(rows[0].run, "1");
    assert_eq!(rows[2].run, "2");
}

#[test]
fn lane_before_every_heat_is_dropped() {
    let mut lanes = example_lanes();
    lanes[0].byte_offset = 5;
    let tree = assemble(example_comps(), example_runs(), lanes);
    let rows = flatten(&tree);
    assert_eq!(rows.len(), 4);
    let names: Vec<&str> = rows.iter().map(|r| r.name.as_str()).collect();
    assert_eq!(names, vec!["Bert", "Cleo", "Dora", "Emil"]);
}

#[test]
fn lane_on_a_heat_offset_is_dropped() {
    let runs = vec![run_at(20, "1")];
    let lanes = vec![lane_at(20, "Anna", "SV Test"), lane_at(25, "Bert", "SV Test")];
    let filled = attach_lanes(runs, lanes);
    assert_eq!(filled.len(), 1);
    assert_eq!(filled[0].lane_list.len(), 1);
    assert_eq!(filled[0].lane_list[0].swimmer.name, "Bert");
}

#[test]
fn filter_matching_nothing_yields_empty_output() {
    let club = "SG Anderswo".to_string();
    let lanes = filter_lanes(example_lanes(), &club);
    assert_eq!(lanes.len(), 0);
    let tree = assemble(example_comps(), example_runs(), lanes);
    assert_eq!(tree.len(), 0);
    let rows = flatten(&tree);
    assert_eq!(rows.len(), 0);
    let csv = csv_of_rows(&rows);
    assert_eq!(csv, "WK;Uhrzeit;Lauf;Bahn;Name;Jahrgang;Verein;Zeit;ZZ;ZZ;ZZ;ZZ;ZZ;ZZ;ZZ;ZZ;\n");
}

#[test]
fn empty_filter_keeps_all_lanes() {
    let club = String::new();
    let lanes = filter_lanes(example_lanes(), &club);
    assert_eq!(lanes.len(), 5);
}

#[test]
fn filter_keeps_only_exact_matches() {
    let mut pool = example_lanes();
    pool[1].swimmer.club = "SG Anderswo".to_string();
    pool[3].swimmer.club = "sv test".to_string();
    let club = "SV Test".to_string();
    let kept = filter_lanes(pool, &club);
    assert_eq!(kept.len(), 3);
    let names: Vec<&str> = kept.iter().map(|l| l.swimmer.name.as_str()).collect();
    assert_eq!(names, vec!["Anna", "Cleo", "Emil"]);
}

#[test]
fn empty_heats_and_competitions_are_pruned() {
    let runs = vec![run_at(20, "1"), run_at(50, "2")];
    let lanes = vec![lane_at(25, "Anna", "SV Test")];
    let filled = attach_lanes(runs, lanes);
    let kept = prune_runs(filled);
    assert_eq!(kept.len(), 1);
    assert_eq!(kept[0].byte_offset, 20);

    let comps = vec![comp_at(10, "100 m Freistil"), comp_at(500, "200 m Brust")];
    let tree = assemble(comps, vec![run_at(20, "1")], vec![lane_at(25, "Anna", "SV Test")]);
    assert_eq!(tree.len(), 1);
    assert_eq!(tree[0].byte_offset, 10);
}

#[test]
fn heat_before_every_competition_is_dropped() {
    let comps = vec![comp_at(10, "100 m Freistil")];
    let runs = vec![run_at(5, "1")];
    let lanes = vec![lane_at(7, "Anna", "SV Test")];
    let tree = assemble(comps, runs, lanes);
    assert_eq!(tree.len(), 0);
}

#[test]
fn prune_competitions_drops_only_empty_ones() {
    let mut full = comp_at(10, "100 m Freistil");
    full.run_list.push(run_at(20, "1"));
    let empty = comp_at(500, "200 m Brust");
    let kept = prune_competitions(vec![full, empty]);
    assert_eq!(kept.len(), 1);
    assert_eq!(kept[0].byte_offset, 10);
}

#[test]
fn csv_renders_one_row_exactly() {
    let rows = vec![Row {
        competition: "100 m Freistil".to_string(),
        run_time: "10:30".to_string(),
        run: "1".to_string(),
        lane: "3".to_string(),
        name: "Anna Muster".to_string(),
        year: "2008".to_string(),
        club: "SV Test".to_string(),
        time: "01:23,45".to_string(),
    }];
    let csv = csv_of_rows(&rows);
    assert_eq!(
        csv,
        "WK;Uhrzeit;Lauf;Bahn;Name;Jahrgang;Verein;Zeit;ZZ;ZZ;ZZ;ZZ;ZZ;ZZ;ZZ;ZZ;\n\
         100 m Freistil;10:30;1;3;Anna Muster;2008;SV Test;01:23,45;;;;;;;;;\n"
    );
}

#[test]
fn roster_deduplicates_by_name_last_wins() {
    let tree = assemble(example_comps(), example_runs(), example_lanes());
    let mut rows = flatten(&tree);
    rows[4].name = "Anna".to_string();
    rows[4].year = "1999".to_string();
    let list = roster(&rows);
    assert_eq!(list.len(), 4);
    assert_eq!(list[0].name, "Anna");
    assert_eq!(list[0].year, "1999");
    assert_eq!(list[1].name, "Bert");
}

#[test]
fn row_count_validation() {
    assert!(row_count_consistent(6, 5));
    assert!(!row_count_consistent(5, 5));
    assert!(!row_count_consistent(0, 0));
    assert!(row_count_consistent(1, 0));
}
