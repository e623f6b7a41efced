use flintec_lpp::csv::split_line;
use flintec_lpp::{read_bad_datetimes, CsvError, TimeFormat, TimeLoad, Timestamp};

fn lines(text: &[&str]) -> Vec<String> {
    text.iter().map(|l| l.to_string()).collect()
}

#[test]
fn a_file_of_loads_is_read() {
    let file = lines(&[
        "datetime,load_kg",
        "2021-11-07T01:30:00-08:00,14000.5",
        "2021-11-07T01:32:00-08:00,13999",
        "2021-11-07T01:34:00-08:00,-0.25,N+14000.5",
    ]);
    let s = TimeLoad::from_csv(&file).unwrap();
    assert_eq!(
        s.time,
        vec![
            Timestamp { secs: 1_636_277_400, offset: -28_800 },
            Timestamp { secs: 1_636_277_520, offset: -28_800 },
            Timestamp { secs: 1_636_277_640, offset: -28_800 },
        ]
    );
    assert_eq!(s.load, vec![Some(14_000_500_000), Some(13_999_000_000), Some(-250_000)]);
}

#[test]
fn the_header_is_passed_over_whatever_it_holds() {
    let file = lines(&["no header at all", "2021-11-07T00:00:00Z,1"]);
    let s = TimeLoad::from_csv(&file).unwrap();
    assert_eq!(s.time, vec![Timestamp { secs: 1_636_243_200, offset: 0 }]);
    assert_eq!(s.load, vec![Some(1_000_000)]);
}

#[test]
fn an_empty_file_gives_an_empty_series() {
    let s = TimeLoad::from_csv(&Vec::new()).unwrap();
    assert!(s.time.is_empty());
    assert!(s.load.is_empty());
    let only_header = TimeLoad::from_csv(&lines(&["datetime,load_kg"])).unwrap();
    assert!(only_header.time.is_empty());
}

#[test]
fn a_load_that_cannot_be_read_becomes_a_missing_load() {
    let file = lines(&[
        "datetime,load_kg",
        "2021-11-07T00:00:00Z,NaN",
        "2021-11-07T00:02:00Z,",
        "2021-11-07T00:04:00Z,abc",
        "2021-11-07T00:06:00Z,7",
    ]);
    let s = TimeLoad::from_csv(&file).unwrap();
    assert_eq!(s.time.len(), 4);
    assert_eq!(s.load, vec![None, None, None, Some(7_000_000)]);
}

#[test]
fn a_timestamp_that_cannot_be_read_ends_the_reading() {
    let file = lines(&[
        "datetime,load_kg",
        "2021-11-07T00:00:00Z,1",
        "2021-11-07 00:02,2",
        "also bad,3",
    ]);
    assert_eq!(TimeLoad::from_csv(&file).err(), Some(CsvError::BadTimestamp { line: 2 }));
}

#[test]
fn a_line_without_a_comma_ends_the_reading() {
    let file = lines(&["datetime,load_kg", "2021-11-07T00:00:00Z,1", "", "bad,3"]);
    assert_eq!(TimeLoad::from_csv(&file).err(), Some(CsvError::MissingField { line: 2 }));
    let no_load = lines(&["datetime,load_kg", "2021-11-07T00:00:00Z"]);
    assert_eq!(TimeLoad::from_csv(&no_load).err(), Some(CsvError::MissingField { line: 1 }));
}

#[test]
fn a_line_is_split_at_its_first_two_commas() {
    assert_eq!(split_line("a,b"), Some(("a", "b")));
    assert_eq!(split_line("a,b,c,d"), Some(("a", "b")));
    assert_eq!(split_line(",b"), Some(("", "b")));
    assert_eq!(split_line("a,"), Some(("a", "")));
    assert_eq!(split_line(","), Some(("", "")));
    assert_eq!(split_line("a,,c"), Some(("a", "")));
    assert_eq!(split_line("ab"), None);
    assert_eq!(split_line(""), None);
    assert_eq!(split_line("é,ü,x"), Some(("é", "ü")));
}

#[test]
fn a_series_is_written_as_a_file_of_loads() {
    let s = TimeLoad {
        time: vec![
            Timestamp { secs: 1_636_277_400, offset: -28_800 },
            Timestamp { secs: 1_636_277_520, offset: -28_800 },
            Timestamp { secs: 1_636_277_640, offset: 0 },
        ],
        load: vec![Some(14_000_500_000), None, Some(-250_000)],
    };
    assert_eq!(
        s.to_csv(),
        Ok(lines(&[
            "datetime,load_kg",
            "2021-11-07T01:30:00-08:00,14000.5",
            "2021-11-07T01:32:00-08:00,NaN",
            "2021-11-07T09:34:00+00:00,-0.25",
        ]))
    );
}

#[test]
fn a_written_file_reads_back_as_the_same_series() {
    let s = TimeLoad {
        time: vec![
            Timestamp { secs: 1_636_277_400, offset: -28_800 },
            Timestamp { secs: 1_636_277_520, offset: 3_600 },
        ],
        load: vec![Some(1), None],
    };
    let back = TimeLoad::from_csv(&s.to_csv().unwrap()).unwrap();
    assert_eq!(back.time, s.time);
    assert_eq!(back.load, s.load);
}

#[test]
fn an_empty_series_is_written_as_the_header_alone() {
    assert_eq!(TimeLoad::new(0).to_csv(), Ok(lines(&["datetime,load_kg"])));
}

#[test]
fn a_timestamp_without_text_ends_the_writing() {
    let s = TimeLoad {
        time: vec![Timestamp { secs: 0, offset: 0 }, Timestamp { secs: i64::MAX, offset: 0 }],
        load: vec![None, None],
    };
    assert_eq!(s.to_csv(), Err(CsvError::UnwritableTimestamp { index: 1 }));
    assert_eq!(s.to_rows(TimeFormat::Naive), Err(CsvError::UnwritableTimestamp { index: 1 }));
}

#[test]
fn rows_are_read_in_either_format() {
    let rfc = vec![
        ("2021-11-07T01:30:00-08:00".to_string(), "1.5".to_string()),
        ("2021-11-07T01:32:00-08:00".to_string(), "oops".to_string()),
    ];
    let s = TimeLoad::from_rows(&rfc, TimeFormat::Rfc3339).unwrap();
    assert_eq!(
        s.time,
        vec![
            Timestamp { secs: 1_636_277_400, offset: -28_800 },
            Timestamp { secs: 1_636_277_520, offset: -28_800 },
        ]
    );
    assert_eq!(s.load, vec![Some(1_500_000), None]);
    let naive = vec![("2021-11-07 01:30:00".to_string(), "2".to_string())];
    let n = TimeLoad::from_rows(&naive, TimeFormat::Naive).unwrap();
    assert_eq!(n.time, vec![Timestamp { secs: 1_636_248_600, offset: 0 }]);
    assert_eq!(n.load, vec![Some(2_000_000)]);
}

#[test]
fn a_row_in_the_wrong_format_ends_the_reading() {
    let rows = vec![
        ("2021-11-07 01:30:00".to_string(), "1".to_string()),
        ("2021-11-07T01:32:00Z".to_string(), "2".to_string()),
    ];
    assert_eq!(
        TimeLoad::from_rows(&rows, TimeFormat::Naive).err(),
        Some(CsvError::BadTimestamp { line: 1 })
    );
    assert_eq!(
        TimeLoad::from_rows(&rows, TimeFormat::Rfc3339).err(),
        Some(CsvError::BadTimestamp { line: 0 })
    );
}

#[test]
fn rows_are_written_in_either_format() {
    let s = TimeLoad {
        time: vec![Timestamp { secs: 1_636_277_400, offset: -28_800 }],
        load: vec![Some(2_000_000)],
    };
    assert_eq!(
        s.to_rows(TimeFormat::Rfc3339),
        Ok(vec![("2021-11-07T01:30:00-08:00".to_string(), "2".to_string())])
    );
    assert_eq!(
        s.to_rows(TimeFormat::Naive),
        Ok(vec![("2021-11-07 01:30:00".to_string(), "2".to_string())])
    );
}

#[test]
fn bad_timestamps_are_read_one_to_a_line() {
    let file = lines(&["2021-11-07T01:30:00-08:00", "2021-11-07T00:00:00Z"]);
    assert_eq!(
        read_bad_datetimes(&file, TimeFormat::Rfc3339),
        Ok(vec![
            Timestamp { secs: 1_636_277_400, offset: -28_800 },
            Timestamp { secs: 1_636_243_200, offset: 0 },
        ])
    );
    assert_eq!(read_bad_datetimes(&Vec::new(), TimeFormat::Rfc3339), Ok(Vec::new()));
}

#[test]
fn a_malformed_bad_timestamp_ends_the_reading() {
    let file = lines(&["2021-11-07T01:30:00-08:00", "", "2021-11-07T00:00:00Z"]);
    assert_eq!(
        read_bad_datetimes(&file, TimeFormat::Rfc3339),
        Err(CsvError::BadTimestamp { line: 1 })
    );
}

#[test]
fn a_series_is_written_as_one_text() {
    let s = TimeLoad {
        time: vec![
            Timestamp { secs: 1_636_277_400, offset: -28_800 },
            Timestamp { secs: 1_636_277_520, offset: -28_800 },
        ],
        load: vec![Some(14_000_500_000), None],
    };
    assert_eq!(
        s.to_text(),
        Ok(String::from(
            "datetime, load [kg]\n2021-11-07T01:30:00-08:00,14000.5\n2021-11-07T01:32:00-08:00,NaN\n"
        ))
    );
    assert_eq!(TimeLoad::new(0).to_text(), Ok(String::from("datetime, load [kg]\n")));
    let far = TimeLoad { time: vec![Timestamp { secs: i64::MIN, offset: 0 }], load: vec![None] };
    assert_eq!(far.to_text(), Err(CsvError::UnwritableTimestamp { index: 0 }));
}
