use wca_data::WCA;

const PERSONS: &str = "id\tsubid\tname\tcountry\tgender\n1982FRID01\t1\tJessica Fridrich\tUSA\tf\n1982RAZO01\t1\tLars Razo\tMexico\tm\n1982LAET01\t1\tLuc Van Laethem\tBelgium\tm\n1982LABA01\t1\tZoltán Lábas\tHungary\tm\n2014RODR25\t1\tConcepción Rodríguez\tSpain\tx\n2005AKKE01\t1\tErik Akkersdijk\tNetherlands\tm\n2003BRUC01\t1\tRon van Bruchem\tNetherlands\tm\n2007WEIN01\t1\tMats Valk\tNetherlands\tm\n2011RAHM01\t1\tAlbert Rahm\tGermany\tm\n";

const RESULTS: &str = "competitionId\teventId\troundTypeId\tpos\tbest\taverage\tpersonName\tpersonId\nWC1982\t333\tf\t1\t1\t1\tLars Razo\t1982RAZO01\nWC1984\t333\tf\t1\t1\t1\tLars Razo\t1982RAZO01\nWC1986\t333\tf\t1\t1\t1\tLars Razo\t1982RAZO01\nWC1982\t333\tf\t2\t1\t1\tJessica Fridrich\t1982FRID01\nWC1984\t333\tf\t2\t1\t1\tJessica Fridrich\t1982FRID01\nWC1986\t333\tf\t3\t1\t1\tLars Razo\t1982RAZO01\n";

const RANKS_SINGLE: &str = "personId\teventId\tbest\tworldRank\tcontinentRank\tcountryRank\n2011RAHM01\t333\t4647\t4\t4\t4\n2005AKKE01\t333\t708\t1\t1\t1\n2007WEIN01\t333\t1065\t3\t3\t3\n2003BRUC01\t333\t871\t2\t2\t2\n2005AKKE01\t444\t2999\t1\t1\t1\n2005AKKE01\t444bf\t6941\t1\t1\t1\n";

const RANKS_AVERAGE: &str = "personId\teventId\tbest\tworldRank\tcontinentRank\tcountryRank\n2003BRUC01\t333\t1262\t2\t2\t2\n2005AKKE01\t333\t931\t1\t1\t1\n";

const EVENTS: &str = "eventId\tname\n333\tRubik's Cube\n444\t4x4x4 Cube\n555\t5x5x5 Cube\n222\t2x2x2 Cube\n333bf\tRubik's Cube: Blindfolded\n333oh\tRubik's Cube: One-handed\n333fm\tRubik's Cube: Fewest moves\n333ft\tRubik's Cube: With feet\nminx\tMegaminx\npyram\tPyraminx\nsq1\tSquare-1\nclock\tRubik's Clock\n666\t6x6x6 Cube\n777\t7x7x7 Cube\n444bf\t4x4x4 Cube: Blindfolded\n555bf\t5x5x5 Cube: Blindfolded\n333mbf\tRubik's Cube: Multiple Blindfolded\nmagic\tRubik's Magic\nmmagic\tMaster Magic\nskewb\tSkewb\n333mbo\tRubik's Cube: Multi blind old style\nkilominx\tKilominx\nredi\tRedi Cube\nivy\tIvy Cube\nmaster\tMaster Pyraminx\ndino\tDino Cube\nhelicopter\tHelicopter Cube\ngear\tGear Cube\nmirror\tMirror Blocks\nvoid\tVoid Cube\n223\t2x2x3 Tower\n334\t3x3x4 Cube\n335\t3x3x5 Cube\nfto\tFace-Turning Octahedron\npyramorphix\tPyramorphix\n";

fn setup_data() -> WCA {
    wca_data::build_from_files(PERSONS, RESULTS, RANKS_SINGLE, RANKS_AVERAGE, EVENTS).unwrap()
}

#[test]
fn single_records() {
    let w = setup_data();
    let record = w.find_records(&"2005AKKE01".to_string()).unwrap();
    let three_by_three = record.get(&"333".to_string()).unwrap();
    let four_by_four = record.get(&"444".to_string()).unwrap();

    assert_eq!(three_by_three.single.time, 708);
    assert_eq!(four_by_four.single.time, 2999);
}

#[test]
fn average_records() {
    let w = setup_data();
    let record = w.find_records(&"2005AKKE01".to_string()).unwrap();

    let three_by_three = record.get(&"333".to_string()).unwrap();
    let blindfolded_44 = record.get(&"444bf".to_string()).unwrap();

    assert_eq!(three_by_three.clone().average.unwrap().time, 931);
    assert_eq!(blindfolded_44.average.is_none(), true);
}

#[test]
fn single_rankings() {
    let w = setup_data();
    let ranks = w.find_rankings(&"333".to_string(), wca_data::ResultType::Single).unwrap();
    assert_eq!(ranks.len(), 4);
    assert_eq!(ranks.get(0).unwrap().result.time, 708);
    assert_eq!(ranks.get(0).unwrap().competitor_id, "2005AKKE01".to_string());
    assert_eq!(ranks.get(1).unwrap().result.time, 871);
    assert_eq!(ranks.get(1).unwrap().competitor_id, "2003BRUC01".to_string());
    assert_eq!(ranks.get(2).unwrap().result.time, 1065);
    assert_eq!(ranks.get(2).unwrap().competitor_id, "2007WEIN01".to_string());
    assert_eq!(ranks.get(3).unwrap().result.time, 4647);
    assert_eq!(ranks.get(3).unwrap().competitor_id, "2011RAHM01".to_string());

    let ranks = w.find_rankings(&"444bf".to_string(), wca_data::ResultType::Single).unwrap();
    assert_eq!(ranks.len(), 1);
    assert_eq!(ranks.get(0).unwrap().competitor_id, "2005AKKE01".to_string());
}

#[test]
fn average_rankings() {
    let w = setup_data();
    let ranks = w.find_rankings(&"333".to_string(), wca_data::ResultType::Average).unwrap();
    assert_eq!(ranks.len(), 2);
    assert_eq!(ranks.get(0).unwrap().result.time, 931);
    assert_eq!(ranks.get(0).unwrap().competitor_id, "2005AKKE01".to_string());
    assert_eq!(ranks.get(1).unwrap().result.time, 1262);
    assert_eq!(ranks.get(1).unwrap().competitor_id, "2003BRUC01".to_string());
}

#[test]
fn records_of_multiple_competitors() {
    let w = setup_data();
    let ids = vec!["2003BRUC01", "2005AKKE01"].iter().map(|id| id.to_string()).collect();
    let records = w.find_rankings_for(&"333".to_string(), ids);

    assert_eq!(records.len(), 2);
    assert_eq!(records.get(0).unwrap().single.time, 708);
    assert_eq!(records.get(0).unwrap().competitor_id, "2005AKKE01".to_string());
    assert_eq!(records.get(1).unwrap().single.time, 871);
    assert_eq!(records.get(1).unwrap().competitor_id, "2003BRUC01".to_string());
}
