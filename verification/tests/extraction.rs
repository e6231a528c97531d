use heatsheet::extract::extract_competitions;
use heatsheet::extract::extract_lanes;
use heatsheet::extract::extract_runs;
use heatsheet::pipeline::convert_document;

fn sample_text() -> String {
    let mut t = String::new();
    t.push_str("Wettkampf 1 - 100 m Freistil weiblich\n");
    t.push_str("Lauf 1/2 (ca. 10:30 Uhr)\n");
    t.push_str("Bahn 3 Anna Muster   2008 SV Test   01:23,45\n");
    t.push_str("Bahn 4 Berta Beispiel   2007 SG Anderswo   01:20,00\n");
    t.push_str("Lauf 2/2 (ca. 10:45 Uhr)\n");
    t.push_str("Bahn 1 Cleo Dritte   2009 SV Test   01:25,10\n");
    t
}

#[test]
fn scans_competition_headers() {
    let text = sample_text();
    let comps = extract_competitions(&text).expect("rule compiles");
    assert_eq!(comps.len(), 1);
    assert_eq!(comps[0].competition, "100 m Freistil");
    assert_eq!(comps[0].byte_offset, 0);
    assert!(comps[0].run_list.is_empty());
}

#[test]
fn scans_heat_headers() {
    let text = sample_text();
    let runs = extract_runs(&text).expect("rule compiles");
    assert_eq!(runs.len(), 2);
    assert_eq!(runs[0].run, "1");
    assert_eq!(runs[0].time, "10:30");
    assert_eq!(runs[1].run, "2");
    assert_eq!(runs[1].time, "10:45");
    assert!(runs[0].byte_offset < runs[1].byte_offset);
    assert!(runs[0].byte_offset > 0);
}

#[test]
fn scans_lane_rows_and_trims_fields() {
    let text = sample_text();
    let club = String::new();
    let lanes = extract_lanes(&text, &club).expect("rule compiles");
    assert_eq!(lanes.len(), 3);
    assert_eq!(lanes[0].lane, "3");
    assert_eq!(lanes[0].swimmer.name, "Anna Muster");
    assert_eq!(lanes[0].swimmer.year, "2008");
    assert_eq!(lanes[0].swimmer.club, "SV Test");
    assert_eq!(lanes[0].time, "01:23,45");
    assert_eq!(lanes[1].swimmer.name, "Berta Beispiel");
    assert_eq!(lanes[1].swimmer.club, "SG Anderswo");
    assert_eq!(lanes[2].swimmer.name, "Cleo Dritte");
    assert!(lanes[0].byte_offset < lanes[1].byte_offset);
    assert!(lanes[1].byte_offset < lanes[2].byte_offset);
}

#[test]
fn scan_applies_affiliation_filter() {
    let text = sample_text();
    let club = "SV Test".to_string();
    let lanes = extract_lanes(&text, &club).expect("rule compiles");
    assert_eq!(lanes.len(), 2);
    assert_eq!(lanes[0].swimmer.name, "Anna Muster");
    assert_eq!(lanes[1].swimmer.name, "Cleo Dritte");
}

#[test]
fn converts_whole_document() {
    let text = sample_text();
    let club = String::new();
    let out = convert_document(&text, &club).expect("rules compile");
    assert_eq!(out.starts, 3);
    assert_eq!(out.swimmers, 3);
    assert_eq!(out.rows.len(), 3);
    assert_eq!(out.rows[0].competition, "100 m Freistil");
    assert_eq!(out.rows[0].run, "1");
    assert_eq!(out.rows[0].name, "Anna Muster");
    assert_eq!(out.rows[2].run, "2");
    assert_eq!(out.rows[2].name, "Cleo Dritte");
    assert_eq!(out.csv.lines().count(), 4);
    assert!(out.csv.starts_with("WK;Uhrzeit;Lauf;Bahn;Name;Jahrgang;Verein;Zeit;"));
    assert!(out.csv.contains("100 m Freistil;10:30;1;3;Anna Muster;2008;SV Test;01:23,45;;;;;;;;;\n"));
}

#[test]
fn text_without_matches_yields_empty_output() {
    let club = String::new();
    let out = convert_document("nothing to recognise here", &club).expect("rules compile");
    assert_eq!(out.starts, 0);
    assert_eq!(out.rows.len(), 0);
    assert_eq!(out.swimmers, 0);
    assert_eq!(out.csv, "WK;Uhrzeit;Lauf;Bahn;Name;Jahrgang;Verein;Zeit;ZZ;ZZ;ZZ;ZZ;ZZ;ZZ;ZZ;ZZ;\n");
}

#[test]
fn converts_with_filter() {
    let text = sample_text();
    let club = "SV Test".to_string();
    let out = convert_document(&text, &club).expect("rules compile");
    assert_eq!(out.starts, 2);
    assert_eq!(out.rows.len(), 2);
    assert_eq!(out.swimmers, 2);
    assert_eq!(out.csv.lines().count(), 3);
}
