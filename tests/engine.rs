use zipzap::{
    build_pattern, outranks, parse_line, Entry, ImportError, LineError, Shell, Store,
    AGING_THRESHOLD, MAX_RANK, UNIT,
};

fn lines(v: &[&str]) -> Vec<String> {
    v.iter().map(|s| s.to_string()).collect()
}

fn toks(v: &[&str]) -> Vec<String> {
    lines(v)
}

fn entry(path: &str, rank: u64, time: i64) -> Entry {
    Entry { path: path.to_string(), rank, time }
}

fn total(s: &Store) -> u64 {
    s.entries().iter().map(|e| e.rank).sum()
}

#[test]
fn three_visits_give_rank_three_and_are_found() {
    let mut s = Store::new();
    for t in [100, 101, 102] {
        s.record_visit("/a/b", t);
    }
    let e = s.lookup("/a/b").unwrap();
    assert_eq!(e.rank, 3 * UNIT);
    assert_eq!(e.time, 102);
    assert_eq!(s.find_best(&toks(&["b"]), 103), Some("/a/b".to_string()));
}

#[test]
fn first_visit_creates_rank_one() {
    let mut s = Store::new();
    s.record_visit("/x", 5);
    assert_eq!(s.len(), 1);
    let e = s.lookup("/x").unwrap();
    assert_eq!(e.rank, UNIT);
    assert_eq!(e.time, 5);
}

#[test]
fn visit_lowercases_path() {
    let mut s = Store::new();
    s.record_visit("/Foo/BAR", 1);
    assert_eq!(s.entries()[0].path, "/foo/bar");
    assert_eq!(s.find_best(&toks(&["Bar"]), 2), Some("/foo/bar".to_string()));
    s.record_visit("/foo/bar", 3);
    assert_eq!(s.len(), 1);
    assert_eq!(s.lookup("/FOO/bar").unwrap().rank, 2 * UNIT);
}

#[test]
fn no_aging_just_below_threshold() {
    // 8998.999 + 1.0 = 8999.999 after the visit
    let mut s = Store::from_entries(vec![entry("/other", 8_998_999_000, 1)]).unwrap();
    s.record_visit("/new", 2);
    assert_eq!(total(&s), 8_999_999_000);
    assert_eq!(s.lookup("/other").unwrap().rank, 8_998_999_000);
    assert_eq!(s.lookup("/new").unwrap().rank, UNIT);
}

#[test]
fn aging_fires_at_threshold() {
    // 8999.0 + 1.0 = 9000.0 after the visit
    let mut s = Store::from_entries(vec![entry("/other", 8_999 * UNIT, 1)]).unwrap();
    s.record_visit("/new", 2);
    assert_eq!(s.lookup("/other").unwrap().rank, 8_909_010_000);
    assert_eq!(s.lookup("/new").unwrap().rank, 990_000);
    assert_eq!(AGING_THRESHOLD, 9_000 * UNIT);
}

#[test]
fn aging_scales_total_by_point_nine_nine() {
    let mut s = Store::from_entries(vec![
        entry("/a", 4_000_123_457, 1),
        entry("/b", 3_000_000_001, 1),
        entry("/c", 1_999_876_543, 1),
    ])
    .unwrap();
    s.record_visit("/a", 2);
    let before = 4_000_123_457u64 + UNIT + 3_000_000_001 + 1_999_876_543;
    let after = total(&s);
    let ratio = after as f64 / before as f64;
    assert!((ratio - 0.99).abs() < 1e-9);
    assert!(after * 100 <= before * 99);
    assert!(before * 99 <= after * 100 + 99 * 3);
}

#[test]
fn visit_rank_follows_decay_history() {
    // the first visit of /p sets off an aging pass, the second does not
    let mut s = Store::from_entries(vec![entry("/big", 9_000 * UNIT, 0)]).unwrap();
    s.record_visit("/p", 1);
    assert_eq!(s.lookup("/p").unwrap().rank, 990_000);
    assert_eq!(s.lookup("/big").unwrap().rank, 8_910 * UNIT);
    s.record_visit("/p", 2);
    assert_eq!(s.lookup("/p").unwrap().rank, 990_000 + UNIT);
    assert_eq!(s.lookup("/big").unwrap().rank, 8_910 * UNIT);
    // with /big back at the threshold, the next visit ages both again
    let mut s = Store::from_entries(vec![entry("/big", 9_000 * UNIT, 0)]).unwrap();
    s.record_visit("/p", 1);
    s.import(&lines(&["/big|9000|5"]), false).unwrap();
    s.record_visit("/p", 6);
    assert_eq!(s.lookup("/p").unwrap().rank, (990_000 + UNIT) * 99 / 100);
    assert_eq!(s.lookup("/big").unwrap().rank, 8_910 * UNIT);
}

#[test]
fn score_falls_with_age_and_rises_with_rank() {
    let now = 1_000_000;
    assert!(outranks(5 * UNIT, now, 5 * UNIT, now - 10, now));
    assert!(!outranks(5 * UNIT, now - 10, 5 * UNIT, now, now));
    assert!(outranks(6 * UNIT, now - 50, 5 * UNIT, now - 50, now));
    assert!(!outranks(5 * UNIT, now - 50, 5 * UNIT, now - 50, now));
    // 3.75*2/(1.25) = 6.0 against 3.75*10/(0.0001*50000+1.25) = 6.0: equal, neither above
    assert!(!outranks(2 * UNIT, now, 10 * UNIT, now - 50_000, now));
    assert!(!outranks(10 * UNIT, now - 50_000, 2 * UNIT, now, now));
    // a future time counts as age 0
    assert!(!outranks(UNIT, now, UNIT, now + 100, now));
    assert!(outranks(MAX_RANK, i64::MIN, MAX_RANK - 1, i64::MIN, i64::MAX));
}

#[test]
fn find_prefers_higher_score() {
    let s = Store::from_entries(vec![
        entry("/proj/old", 10 * UNIT, 0),
        entry("/proj/new", 2 * UNIT, 100_000),
        entry("/elsewhere", 100 * UNIT, 100_000),
    ])
    .unwrap();
    // old: 3.75*10/(11.25) = 3.33; new: 3.75*2/1.25 = 6.0
    assert_eq!(s.find_best(&toks(&["proj"]), 100_000), Some("/proj/new".to_string()));
    assert_eq!(s.find_best(&toks(&["old"]), 100_000), Some("/proj/old".to_string()));
}

#[test]
fn find_breaks_ties_by_order() {
    let s = Store::from_entries(vec![entry("/t/one", UNIT, 5), entry("/t/two", UNIT, 5)]).unwrap();
    assert_eq!(s.find_best(&toks(&["t"]), 5), Some("/t/one".to_string()));
}

#[test]
fn find_needs_tokens_in_order() {
    let s = Store::from_entries(vec![entry("/alpha/beta/gamma", UNIT, 0)]).unwrap();
    assert_eq!(s.find_best(&toks(&["alp", "gam"]), 0), Some("/alpha/beta/gamma".to_string()));
    assert_eq!(s.find_best(&toks(&["gam", "alp"]), 0), None);
    assert_eq!(s.find_best(&toks(&["beta", "beta"]), 0), None);
    assert_eq!(s.find_best(&toks(&["zzz"]), 0), None);
    assert_eq!(s.find_best(&toks(&[]), 0), None);
}

#[test]
fn find_on_empty_store() {
    let s = Store::new();
    assert_eq!(s.find_best(&toks(&["a"]), 0), None);
}

#[test]
fn pattern_matches_in_order_ignoring_case() {
    let p = build_pattern(&toks(&["A", "c"]));
    assert!(p.matches("/a/b/c"));
    assert!(!p.matches("/c/b/a"));
    assert!(!p.is_empty());
    assert!(build_pattern(&toks(&[])).is_empty());
    assert!(build_pattern(&toks(&["ab", "ba"])).matches("abba"));
    assert!(!build_pattern(&toks(&["aba", "ba"])).matches("aba"));
}

#[test]
fn import_keeps_newer_rows() {
    let mut s = Store::new();
    assert_eq!(s.import(&lines(&["/x/y|5|100"]), false), Ok(1));
    assert_eq!(s.import(&lines(&["/x/y|2|50"]), false), Ok(1));
    let e = s.lookup("/x/y").unwrap();
    assert_eq!((e.rank, e.time), (5 * UNIT, 100));
    assert_eq!(s.import(&lines(&["/x/y|2|100"]), false), Ok(1));
    let e = s.lookup("/x/y").unwrap();
    assert_eq!((e.rank, e.time), (5 * UNIT, 100));
    assert_eq!(s.import(&lines(&["/x/y|2|200"]), false), Ok(1));
    let e = s.lookup("/x/y").unwrap();
    assert_eq!((e.rank, e.time), (2 * UNIT, 200));
}

#[test]
fn import_twice_is_import_once() {
    let data = lines(&["/a|1.5|10", "/B|2|20", "/a|3|5", "", "/c|0.25|30|extra"]);
    let mut s = Store::from_entries(vec![entry("/b", 7 * UNIT, 15)]).unwrap();
    assert_eq!(s.import(&data, false), Ok(4));
    let once: Vec<(String, u64, i64)> =
        s.entries().iter().map(|e| (e.path.clone(), e.rank, e.time)).collect();
    assert_eq!(s.import(&data, false), Ok(4));
    let twice: Vec<(String, u64, i64)> =
        s.entries().iter().map(|e| (e.path.clone(), e.rank, e.time)).collect();
    assert_eq!(once, twice);
    assert_eq!(
        once,
        vec![
            ("/b".to_string(), 2 * UNIT, 20),
            ("/a".to_string(), 1_500_000, 10),
            ("/c".to_string(), 250_000, 30),
        ]
    );
}

#[test]
fn import_with_clear_replaces_everything() {
    let mut s = Store::from_entries(vec![entry("/old", UNIT, 999), entry("/x", UNIT, 999)]).unwrap();
    assert_eq!(s.import(&lines(&["/x|4|1", "/y|5|2"]), true), Ok(2));
    let got: Vec<(String, u64, i64)> =
        s.entries().iter().map(|e| (e.path.clone(), e.rank, e.time)).collect();
    assert_eq!(got, vec![("/x".to_string(), 4 * UNIT, 1), ("/y".to_string(), 5 * UNIT, 2)]);
}

#[test]
fn import_errors_leave_store_unchanged() {
    let mut s = Store::from_entries(vec![entry("/keep", UNIT, 1)]).unwrap();
    let cases = [
        (vec!["/a|1|2", "nobar"], ImportError { line: 2, kind: LineError::MissingRank }),
        (vec!["/a|x|2"], ImportError { line: 1, kind: LineError::BadRank }),
        (vec!["", "/a|1"], ImportError { line: 2, kind: LineError::MissingTime }),
        (vec!["/a|1|2", "/b|1|2", "/c|1|t"], ImportError { line: 3, kind: LineError::BadTime }),
        (vec!["/a|1|", "/b"], ImportError { line: 1, kind: LineError::BadTime }),
    ];
    for (data, err) in cases {
        assert_eq!(s.import(&lines(&data), true), Err(err));
        assert_eq!(s.len(), 1);
        assert_eq!(s.entries()[0].path, "/keep");
    }
}

#[test]
fn import_skips_empty_lines() {
    let mut s = Store::new();
    assert_eq!(s.import(&lines(&["", "/a|1|1", ""]), false), Ok(1));
    assert_eq!(s.import(&lines(&[]), false), Ok(0));
    assert_eq!(s.len(), 1);
}

#[test]
fn line_parser_reads_fields() {
    let e = parse_line("/Some/Path|12.345|1700000000").unwrap();
    assert_eq!((e.path.as_str(), e.rank, e.time), ("/some/path", 12_345_000, 1_700_000_000));
    assert_eq!(parse_line("/p|0.1234567|-5").unwrap().rank, 123_456);
    assert_eq!(parse_line("/p|.5|+7").unwrap().rank, 500_000);
    assert_eq!(parse_line("/p|5.|0").unwrap().rank, 5 * UNIT);
    assert_eq!(parse_line("/p|1|-9223372036854775808").unwrap().time, i64::MIN);
    assert_eq!(parse_line("/p|1|9223372036854775807").unwrap().time, i64::MAX);
    assert_eq!(parse_line("|1|2").unwrap().path, "");
}

#[test]
fn line_parser_rejects_bad_fields() {
    assert_eq!(parse_line("/p|.|1").unwrap_err(), LineError::BadRank);
    assert_eq!(parse_line("/p|-1|1").unwrap_err(), LineError::BadRank);
    assert_eq!(parse_line("/p|1.2.3|1").unwrap_err(), LineError::BadRank);
    assert_eq!(parse_line("/p||1").unwrap_err(), LineError::BadRank);
    assert_eq!(parse_line("/p|1e3|1").unwrap_err(), LineError::BadRank);
    assert_eq!(parse_line("/p|99999999999999999999|1").unwrap_err(), LineError::BadRank);
    assert_eq!(parse_line("/p|1|9223372036854775808").unwrap_err(), LineError::BadTime);
    assert_eq!(parse_line("/p|1|-").unwrap_err(), LineError::BadTime);
    assert_eq!(parse_line("/p|1| 2").unwrap_err(), LineError::BadTime);
    assert_eq!(parse_line("/p|x").unwrap_err(), LineError::BadRank);
}

#[test]
fn largest_rank_is_accepted() {
    let text = format!("/p|{}.{:06}|1", MAX_RANK / UNIT, MAX_RANK % UNIT);
    assert_eq!(parse_line(&text).unwrap().rank, MAX_RANK);
    let over = format!("/p|{}.{:06}|1", MAX_RANK / UNIT, MAX_RANK % UNIT + 1);
    assert_eq!(parse_line(&over).unwrap_err(), LineError::BadRank);
    let mut s = Store::from_entries(vec![entry("/p", MAX_RANK, 0)]).unwrap();
    s.record_visit("/p", 1);
    assert!(s.lookup("/p").unwrap().rank <= MAX_RANK);
}

#[test]
fn from_entries_checks_rows() {
    assert!(Store::from_entries(vec![entry("/a", 1, 1), entry("/a", 2, 2)]).is_none());
    assert!(Store::from_entries(vec![entry("/a", MAX_RANK + 1, 1)]).is_none());
    assert_eq!(Store::from_entries(vec![entry("/a", 1, 1), entry("/b", 2, 2)]).unwrap().len(), 2);
}

#[test]
fn shell_names_round_trip() {
    for s in [Shell::Fish, Shell::Bash, Shell::Zsh] {
        assert_eq!(Shell::from_name(s.name()), Some(s));
    }
    assert_eq!(Shell::from_name("zsh"), Some(Shell::Zsh));
    assert_eq!(Shell::from_name("sh"), None);
    assert_eq!(Shell::from_name("Bash"), None);
    assert_eq!(Shell::from_name(""), None);
}

#[test]
fn eval_line_names_the_shell() {
    assert_eq!(
        zipzap::Shell::Bash.eval_line(),
        "eval \"$(zipzap source bash)\" # added by 'zipzap install bash'"
    );
}

#[test]
fn rc_lines_are_found_whole() {
    let line = zipzap::Shell::Zsh.eval_line();
    let text = format!("export A=1\n{line}\nalias x=y\n");
    assert!(zipzap::contains_line(&text, &line));
    assert!(zipzap::contains_line(&format!("{line}\r\n"), &line));
    assert!(zipzap::contains_line(&line, &line));
    assert!(!zipzap::contains_line(&format!("# {line}\n"), &line));
    assert!(!zipzap::contains_line(&format!("{line} extra\n"), &line));
    assert!(!zipzap::contains_line("", &line));
}

#[test]
fn append_adds_a_final_line() {
    assert_eq!(zipzap::append_line("a\n", "b"), "a\nb\n");
    assert_eq!(zipzap::append_line("a", "b"), "a\nb\n");
    assert_eq!(zipzap::append_line("", "b"), "\nb\n");
}

#[test]
fn rc_line_with_newline_never_matches() {
    assert!(!zipzap::contains_line("a\nb\n", "a\nb"));
    assert!(zipzap::contains_line("a\nb\n", "b"));
}
