use wca_data::WCA;

const PERSONS: &str = "id\tsubid\tname\tcountry\tgender\n1982FRID01\t1\tJessica Fridrich\tUSA\tf\n1982RAZO01\t1\tLars Razo\tMexico\tm\n1982LAET01\t1\tLuc Van Laethem\tBelgium\tm\n1982LABA01\t1\tZoltán Lábas\tHungary\tm\n2014RODR25\t1\tConcepción Rodríguez\tSpain\tx\n2005AKKE01\t1\tErik Akkersdijk\tNetherlands\tm\n2003BRUC01\t1\tRon van Bruchem\tNetherlands\tm\n2007WEIN01\t1\tMats Valk\tNetherlands\tm\n2011RAHM01\t1\tAlbert Rahm\tGermany\tm\n";

const RESULTS: &str = "competitionId\teventId\troundTypeId\tpos\tbest\taverage\tpersonName\tpersonId\nWC1982\t333\tf\t1\t1\t1\tLars Razo\t1982RAZO01\nWC1984\t333\tf\t1\t1\t1\tLars Razo\t1982RAZO01\nWC1986\t333\tf\t1\t1\t1\tLars Razo\t1982RAZO01\nWC1982\t333\tf\t2\t1\t1\tJessica Fridrich\t1982FRID01\nWC1984\t333\tf\t2\t1\t1\tJessica Fridrich\t1982FRID01\nWC1986\t333\tf\t3\t1\t1\tLars Razo\t1982RAZO01\n";

const RANKS_SINGLE: &str = "personId\teventId\tbest\tworldRank\tcontinentRank\tcountryRank\n2011RAHM01\t333\t4647\t4\t4\t4\n2005AKKE01\t333\t708\t1\t1\t1\n2007WEIN01\t333\t1065\t3\t3\t3\n2003BRUC01\t333\t871\t2\t2\t2\n2005AKKE01\t444\t2999\t1\t1\t1\n2005AKKE01\t444bf\t6941\t1\t1\t1\n";

const RANKS_AVERAGE: &str = "personId\teventId\tbest\tworldRank\tcontinentRank\tcountryRank\n2003BRUC01\t333\t1262\t2\t2\t2\n2005AKKE01\t333\t931\t1\t1\t1\n";

const EVENTS: &str = "eventId\tname\n333\tRubik's Cube\n444\t4x4x4 Cube\n555\t5x5x5 Cube\n222\t2x2x2 Cube\n333bf\tRubik's Cube: Blindfolded\n333oh\tRubik's Cube: One-handed\n333fm\tRubik's Cube: Fewest moves\n333ft\tRubik's Cube: With feet\nminx\tMegaminx\npyram\tPyraminx\nsq1\tSquare-1\nclock\tRubik's Clock\n666\t6x6x6 Cube\n777\t7x7x7 Cube\n444bf\t4x4x4 Cube: Blindfolded\n555bf\t5x5x5 Cube: Blindfolded\n333mbf\tRubik's Cube: Multiple Blindfolded\nmagic\tRubik's Magic\nmmagic\tMaster Magic\nskewb\tSkewb\n333mbo\tRubik's Cube: Multi blind old style\nkilominx\tKilominx\nredi\tRedi Cube\nivy\tIvy Cube\nmaster\tMaster Pyraminx\ndino\tDino Cube\nhelicopter\tHelicopter Cube\ngear\tGear Cube\nmirror\tMirror Blocks\nvoid\tVoid Cube\n223\t2x2x3 Tower\n334\t3x3x4 Cube\n335\t3x3x5 Cube\nfto\tFace-Turning Octahedron\npyramorphix\tPyramorphix\n";

fn setup_data() -> WCA {
    wca_data::build_from_files(PERSONS, RESULTS, RANKS_SINGLE, RANKS_AVERAGE, EVENTS).unwrap()
}

#[test]
fn competitor_gender_female() {
    let w = setup_data();
    let c = w.find_competitor(&"1982FRID01".to_string()).unwrap();
    assert!(c.gender == wca_data::Gender::Female);
}

#[test]
fn competitor_gender_unknown() {
    let w = setup_data();
    let c = w.find_competitor(&"2014RODR25".to_string()).unwrap();
    assert!(c.gender == wca_data::Gender::Unknown);
}

#[test]
fn competition_count() {
    let w = setup_data();
    let count = w.number_of_comps(&"1982RAZO01".to_string()).unwrap();
    assert_eq!(count, 3usize);
    let c = w.find_competitor(&"1982FRID01".to_string()).unwrap();
    assert!(c.competition_count == 2);
}

#[test]
fn test_find_competitors_one() {
    let w = setup_data();
    let competitors = w.find_competitors(&"1982FRID01".to_string());
    assert_eq!(competitors.len(), 1);
}

#[test]
fn test_find_competitors_several() {
    let w = setup_data();
    let competitors = w.find_competitors(&"1982L".to_string());
    assert_eq!(competitors.len(), 2);

    assert_eq!(competitors.iter().find(|c| c.name == "Luc Van Laethem".to_string()).is_some(), true);
    assert_eq!(competitors.iter().find(|c| c.name == "Zoltán Lábas".to_string()).is_some(), true);
}
