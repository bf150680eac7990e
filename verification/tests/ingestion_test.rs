use wca_data::Gender;
use wca_data::IngestionError;
use wca_data::ResultType;
use wca_data::SourceFile;
use wca_data::WCA;

const PERSONS: &str = "id\tsubid\tname\tcountry\tgender\n2005AKKE01\t1\tErik Akkersdijk\tNetherlands\tm\n1982FRID01\t1\tJessica Fridrich\tUSA\tf\n";

const RESULTS: &str = "competitionId\teventId\troundTypeId\tpos\tbest\taverage\tpersonName\tpersonId\nWC2005\t333\tf\t1\t1\t1\tErik Akkersdijk\t2005AKKE01\n";

const RANKS_SINGLE: &str = "personId\teventId\tbest\tworldRank\tcontinentRank\tcountryRank\n2005AKKE01\t333\t708\t1\t1\t1\n1982FRID01\t333\t708\t2\t2\t2\n2005AKKE01\t444\t2999\t1\t1\t1\n";

const RANKS_AVERAGE: &str = "personId\teventId\tbest\tworldRank\tcontinentRank\tcountryRank\n2005AKKE01\t333\t931\t1\t1\t1\n";

const EVENTS: &str = "eventId\tname\n333\tRubik's Cube\n444\t4x4x4 Cube\n";

fn setup_data() -> WCA {
    wca_data::build_from_files(PERSONS, RESULTS, RANKS_SINGLE, RANKS_AVERAGE, EVENTS).unwrap()
}

#[test]
fn malformed_person_row_aborts() {
    let bad = "id\tsubid\tname\tcountry\tgender\n2005AKKE01\tErik Akkersdijk\tNetherlands\tm\n";
    let r = wca_data::build_from_files(bad, RESULTS, RANKS_SINGLE, RANKS_AVERAGE, EVENTS);
    assert_eq!(
        r.err().unwrap(),
        IngestionError::MalformedRow { file: SourceFile::Persons, line: 2 }
    );
}

#[test]
fn non_numeric_subid_aborts() {
    let bad = "id\tsubid\tname\tcountry\tgender\n2005AKKE01\tone\tErik Akkersdijk\tNetherlands\tm\n";
    let r = wca_data::build_from_files(bad, RESULTS, RANKS_SINGLE, RANKS_AVERAGE, EVENTS);
    assert_eq!(
        r.err().unwrap(),
        IngestionError::MalformedRow { file: SourceFile::Persons, line: 2 }
    );
}

#[test]
fn short_result_row_aborts() {
    let bad = "competitionId\teventId\tpersonId\nWC2005\t333\t2005AKKE01\n";
    let r = wca_data::build_from_files(PERSONS, bad, RANKS_SINGLE, RANKS_AVERAGE, EVENTS);
    assert_eq!(
        r.err().unwrap(),
        IngestionError::MalformedRow { file: SourceFile::Results, line: 2 }
    );
}

#[test]
fn non_numeric_best_aborts() {
    let bad = "personId\teventId\tbest\tworldRank\tcontinentRank\tcountryRank\n2005AKKE01\t333\tseven\t1\t1\t1\n";
    let r = wca_data::build_from_files(PERSONS, RESULTS, bad, RANKS_AVERAGE, EVENTS);
    assert_eq!(
        r.err().unwrap(),
        IngestionError::MalformedRow { file: SourceFile::SingleRanks, line: 2 }
    );
}

#[test]
fn malformed_average_row_aborts() {
    let bad = "personId\teventId\tbest\tworldRank\tcontinentRank\tcountryRank\n2005AKKE01\t333\t931\t1\t1\n";
    let r = wca_data::build_from_files(PERSONS, RESULTS, RANKS_SINGLE, bad, EVENTS);
    assert_eq!(
        r.err().unwrap(),
        IngestionError::MalformedRow { file: SourceFile::AverageRanks, line: 2 }
    );
}

#[test]
fn average_without_single_aborts() {
    let bad = "personId\teventId\tbest\tworldRank\tcontinentRank\tcountryRank\n1982FRID01\t555\t931\t1\t1\t1\n";
    let r = wca_data::build_from_files(PERSONS, RESULTS, RANKS_SINGLE, bad, EVENTS);
    assert_eq!(
        r.err().unwrap(),
        IngestionError::MissingPrerequisite { file: SourceFile::AverageRanks, line: 2 }
    );
}

#[test]
fn malformed_event_row_aborts() {
    let bad = "eventId\tname\n333\n";
    let r = wca_data::build_from_files(PERSONS, RESULTS, RANKS_SINGLE, RANKS_AVERAGE, bad);
    assert_eq!(
        r.err().unwrap(),
        IngestionError::MalformedRow { file: SourceFile::Events, line: 2 }
    );
}

#[test]
fn duplicate_person_overwrites_and_is_counted() {
    let dup = "id\tsubid\tname\tcountry\tgender\n2005AKKE01\t1\tFirst Name\tNetherlands\tm\n2005AKKE01\t1\tSecond Name\tNetherlands\tm\n";
    let w = wca_data::build_from_files(dup, RESULTS, RANKS_SINGLE, RANKS_AVERAGE, EVENTS).unwrap();
    let c = w.find_competitor(&"2005AKKE01".to_string()).unwrap();
    assert_eq!(c.name, "Second Name".to_string());
    assert_eq!(w.duplicate_person_count(), 1);
}

#[test]
fn empty_prefix_matches_everyone_in_order() {
    let w = setup_data();
    let all = w.find_competitors(&"".to_string());
    assert_eq!(all.len(), 2);
    assert_eq!(all[0].id, "1982FRID01".to_string());
    assert_eq!(all[1].id, "2005AKKE01".to_string());
}

#[test]
fn unmatched_prefix_matches_nobody() {
    let w = setup_data();
    assert_eq!(w.find_competitors(&"1999".to_string()).len(), 0);
}

#[test]
fn absent_competitor_has_no_count() {
    let w = setup_data();
    assert!(w.number_of_comps(&"1982FRID01".to_string()).is_none());
    assert!(w.find_competitor(&"1900NONE01".to_string()).is_none());
}

#[test]
fn equal_values_keep_source_order() {
    let w = setup_data();
    let ranks = w.find_rankings(&"333".to_string(), ResultType::Single).unwrap();
    assert_eq!(ranks.len(), 2);
    assert_eq!(ranks[0].result.time, 708);
    assert_eq!(ranks[0].competitor_id, "2005AKKE01".to_string());
    assert_eq!(ranks[1].result.time, 708);
    assert_eq!(ranks[1].competitor_id, "1982FRID01".to_string());
}

#[test]
fn rankings_without_entries_are_not_found() {
    let w = setup_data();
    assert!(w.find_rankings(&"444".to_string(), ResultType::Average).is_none());
    assert!(w.find_rankings(&"555".to_string(), ResultType::Single).is_none());
}

#[test]
fn rankings_for_skips_ids_without_result() {
    let w = setup_data();
    let ids = vec!["1982FRID01".to_string(), "2005AKKE01".to_string(), "1900NONE01".to_string()];
    let records = w.find_rankings_for(&"444".to_string(), ids);
    assert_eq!(records.len(), 1);
    assert_eq!(records[0].competitor_id, "2005AKKE01".to_string());
    assert_eq!(records[0].single.time, 2999);
    assert!(records[0].average.is_none());
}

#[test]
fn gender_tokens_round_trip() {
    let w = setup_data();
    let m = w.find_competitor(&"2005AKKE01".to_string()).unwrap();
    assert!(m.gender == Gender::Male);
    assert_eq!(wca_data::gender_to_str(&Gender::Male), "m");
    assert_eq!(wca_data::gender_to_str(&Gender::Female), "f");
    assert_eq!(wca_data::gender_to_str(&Gender::Unknown), "");
}

#[test]
fn round_trip_single_and_average() {
    let w = setup_data();
    let records = w.find_records(&"2005AKKE01".to_string()).unwrap();
    let r = records.get(&"333".to_string()).unwrap();
    assert_eq!(r.single.time, 708);
    assert_eq!(r.average.unwrap().time, 931);
}
