use case_allocation::record::{
    are_complete, parse_allocation, parse_record, parse_records, AllocationError, InputError, Record,
};
use case_allocation::score::parse_i32;
use case_allocation::text::{split_lines, split_record};

#[test]
fn scores_are_read_as_signed_decimal_numbers() {
    assert_eq!(parse_i32("7"), Some(7));
    assert_eq!(parse_i32("+7"), Some(7));
    assert_eq!(parse_i32("-7"), Some(-7));
    assert_eq!(parse_i32("007"), Some(7));
    assert_eq!(parse_i32("2147483647"), Some(i32::MAX));
    assert_eq!(parse_i32("-2147483648"), Some(i32::MIN));
    assert_eq!(parse_i32("2147483648"), None);
    assert_eq!(parse_i32("-2147483649"), None);
    assert_eq!(parse_i32("99999999999999999999999"), None);
    assert_eq!(parse_i32(""), None);
    assert_eq!(parse_i32("+"), None);
    assert_eq!(parse_i32("-"), None);
    assert_eq!(parse_i32(" 7"), None);
    assert_eq!(parse_i32("7 "), None);
    assert_eq!(parse_i32("+-7"), None);
    assert_eq!(parse_i32("7a"), None);
}

#[test]
fn scores_are_read_as_the_standard_library_reads_them() {
    let fields = [
        "0", "1", "9", "10", "+0", "-0", "+12", "-12", "0012", "2147483647", "2147483648",
        "-2147483648", "-2147483649", "4294967296", "", "+", "-", "++1", "--1", "1-", "1+", " 1",
        "1 ", "1.0", "1e3", "0x10", "١", "1_000", "\t1", "1\n",
    ];
    for field in fields {
        assert_eq!(parse_i32(field), field.parse::<i32>().ok());
    }
}

#[test]
fn allocation_of_a_ranking_is_accepted() {
    assert_eq!(parse_allocation(vec!["2", "3", "1"], 3), Ok(vec![2, 3, 1]));
}

#[test]
fn allocation_ignores_fields_beyond_the_cases() {
    assert_eq!(parse_allocation(vec!["2", "1", "x"], 2), Ok(vec![2, 1]));
}

#[test]
fn allocation_reports_the_first_fault() {
    assert_eq!(parse_allocation(vec!["1", "x", "9"], 3), Err(AllocationError::MalformedScore));
    assert_eq!(parse_allocation(vec!["1", "9", "x"], 3), Err(AllocationError::ScoreOutOfRange));
    assert_eq!(parse_allocation(vec!["1", "0", "2"], 3), Err(AllocationError::ScoreOutOfRange));
    assert_eq!(parse_allocation(vec!["1", "2"], 3), Err(AllocationError::MissingScore));
    assert_eq!(parse_allocation(vec!["1", "x"], 3), Err(AllocationError::MalformedScore));
    assert_eq!(parse_allocation(vec!["1", "2", "1"], 3), Err(AllocationError::DuplicateScore));
    assert_eq!(parse_allocation(vec!["1", "1", "x"], 3), Err(AllocationError::MalformedScore));
}

#[test]
fn lines_end_at_newlines() {
    assert_eq!(split_lines(""), Vec::<&str>::new());
    assert_eq!(split_lines("a"), vec!["a"]);
    assert_eq!(split_lines("a\n"), vec!["a"]);
    assert_eq!(split_lines("a\nb"), vec!["a", "b"]);
    assert_eq!(split_lines("a\r\nb\r\n"), vec!["a", "b"]);
    assert_eq!(split_lines("a\n\nb"), vec!["a", "", "b"]);
    assert_eq!(split_lines("\n"), vec![""]);
    assert_eq!(split_lines("a\rb\r"), vec!["a\rb\r"]);
    assert_eq!(split_lines("é\nü"), vec!["é", "ü"]);
}

#[test]
fn lines_agree_with_the_standard_library() {
    for text in ["", "a", "a\n", "a\nb", "a\r\nb\r\n", "a\n\nb", "\n", "\r\n", "a\rb\r", "x\r\n\r\ny", "\n\n"] {
        assert_eq!(split_lines(text), text.lines().collect::<Vec<&str>>());
    }
}

#[test]
fn record_is_cut_at_its_last_commas() {
    assert_eq!(split_record("a,b,c,d", 2), ("a,b", vec!["c", "d"]));
    assert_eq!(split_record("a,b", 5), ("a", vec!["b"]));
    assert_eq!(split_record("abc", 2), ("abc", Vec::<&str>::new()));
    assert_eq!(split_record("a,b,", 1), ("a,b", vec![""]));
    assert_eq!(split_record("a,b", 0), ("a,b", Vec::<&str>::new()));
}

#[test]
fn record_holds_the_name_after_the_time_stamp() {
    let record = parse_record("2021/03/19 10:15:00,Team Rocket,2,1,3", 3).unwrap();
    assert_eq!(record.team_name, "Team Rocket");
    assert_eq!(record.allocation, vec![2, 1, 3]);
}

#[test]
fn record_name_may_hold_commas() {
    let record = parse_record("2021/03/19 10:15:00,Smith, Jones,2,1", 2).unwrap();
    assert_eq!(record.team_name, "Smith, Jones");
    assert_eq!(record.allocation, vec![2, 1]);
}

#[test]
fn record_without_a_time_stamp_is_refused() {
    assert_eq!(parse_record("short,1,2", 2), Err(InputError::MissingTimestamp));
    assert_eq!(parse_record("", 2), Err(InputError::MissingTimestamp));
    assert_eq!(parse_record("2021/03/19 10:15:00", 2), Err(InputError::MissingTimestamp));
    assert_eq!(parse_record("2021/03/19 10:15:00é,A,1,2", 2), Err(InputError::MissingTimestamp));
}

#[test]
fn record_with_too_few_scores_names_its_team() {
    assert_eq!(
        parse_record("2021-03-18 10:00:00,Team A,1,2,3", 9),
        Err(InputError::Allocation {
            team_name: String::from("Team A"),
            reason: AllocationError::MissingScore,
        })
    );
    assert_eq!(
        parse_record("2021-03-18 10:00:00,Team A", 2),
        Err(InputError::Allocation {
            team_name: String::from("Team A"),
            reason: AllocationError::MissingScore,
        })
    );
    assert_eq!(
        parse_record("2021-03-18 10:00:00,", 1),
        Err(InputError::Allocation {
            team_name: String::new(),
            reason: AllocationError::MissingScore,
        })
    );
    assert_eq!(
        parse_record("2021-03-18 10:00:00,Team A,1,x", 3),
        Err(InputError::Allocation {
            team_name: String::from("Team A"),
            reason: AllocationError::MalformedScore,
        })
    );
}

#[test]
fn record_with_commas_in_its_time_stamp_keeps_its_name() {
    let record = parse_record("18,03,2021,10:00:00,Team A,2,1", 2).unwrap();
    assert_eq!(record.team_name, "Team A");
    assert_eq!(record.allocation, vec![2, 1]);
    assert_eq!(
        parse_record("18,03,2021,10:00:00,Team A,2", 2),
        Err(InputError::Allocation {
            team_name: String::from("Team A"),
            reason: AllocationError::MissingScore,
        })
    );
}

#[test]
fn record_without_scores_is_a_name() {
    let record = parse_record("2021-03-18 10:00:00,Team A,B", 0).unwrap();
    assert_eq!(record.team_name, "Team A,B");
    assert!(record.allocation.is_empty());
}

#[test]
fn record_with_bad_scores_names_the_team() {
    match parse_record("2021/03/19 10:15:00,Team A,1,1", 2) {
        Err(InputError::Allocation { team_name, reason }) => {
            assert_eq!(team_name, "Team A");
            assert_eq!(reason, AllocationError::DuplicateScore);
        }
        _ => panic!("the record must be refused"),
    }
    match parse_record("2021/03/19 10:15:00,Team A,1,x", 2) {
        Err(InputError::Allocation { team_name, reason }) => {
            assert_eq!(team_name, "Team A");
            assert_eq!(reason, AllocationError::MalformedScore);
        }
        _ => panic!("the record must be refused"),
    }
}

#[test]
fn records_skip_the_headings() {
    let text = "Timestamp,Team,A,B\n2021/03/19 10:15:00,One,1,2\n2021/03/19 10:16:00,Two,2,1\n";
    let records = parse_records(text, 2).unwrap();
    assert_eq!(records.len(), 2);
    assert_eq!(records[0].team_name, "One");
    assert_eq!(records[0].allocation, vec![1, 2]);
    assert_eq!(records[1].team_name, "Two");
    assert_eq!(records[1].allocation, vec![2, 1]);
}

#[test]
fn records_of_an_empty_file_are_none() {
    assert_eq!(parse_records("", 2).unwrap().len(), 0);
    assert_eq!(parse_records("Timestamp,Team,A,B\n", 2).unwrap().len(), 0);
}

#[test]
fn records_stop_at_the_first_refused_line() {
    let text = "headings\n2021/03/19 10:15:00,One,1,2\n2021/03/19 10:16:00,Two,2,2\nbad\n";
    match parse_records(text, 2) {
        Err(InputError::Allocation { team_name, reason }) => {
            assert_eq!(team_name, "Two");
            assert_eq!(reason, AllocationError::DuplicateScore);
        }
        _ => panic!("the file must be refused"),
    }
}

#[test]
fn records_are_complete_with_a_score_for_each_case() {
    let record = |scores: &[i32]| Record { team_name: String::from("A"), allocation: scores.to_vec() };
    assert!(are_complete(&Vec::new(), 3));
    assert!(are_complete(&vec![record(&[1, 2, 3]), record(&[5, 5, 5])], 3));
    assert!(!are_complete(&vec![record(&[1, 2, 3]), record(&[1, 2])], 3));
    assert!(!are_complete(&vec![record(&[1, 2, 3, 4])], 3));
    assert!(are_complete(&vec![record(&[])], 0));
}
