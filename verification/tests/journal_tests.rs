use kvc::stream::stream_records;
use kvc::table::table_grid;
use kvc::text::{frame_text, split_at_char, split_whitespace};
use kvc::{
    get_reserved_matchers, load_table_from_kvc_stream, read_frame, read_kvc_line,
    read_kvc_line_default, tally_counts, version, KvcTable,
};

fn f32_total(texts: &Vec<String>) -> Option<f32> {
    let mut sum = 0.0f32;
    let mut any = false;
    for t in texts {
        if let Ok(v) = t.parse::<f32>() {
            sum = sum + v;
            any = true;
        }
    }
    if any {
        Some(sum)
    } else {
        None
    }
}

fn f32_total_text(texts: &Vec<String>) -> Option<String> {
    f32_total(texts).map(|v| v.to_string())
}

fn strings(v: &[&str]) -> Vec<String> {
    v.iter().map(|s| s.to_string()).collect()
}

fn pair(a: &str, b: &str) -> (String, String) {
    (a.to_string(), b.to_string())
}

const README_JOURNAL: &str = "a
event event
2021-04-01 april_fools_pranks:4
2021-03-01 key another_key a-third-key <weird-symbols_ar_ok!> this_has_occured_three_times:3 this_twice this_twice
2021-04-02 # Nothing happened that day";

#[test]
fn version_is_semantic() {
    assert_eq!(version(), "0.5.1");
}

#[test]
fn whitespace_splits_tokens() {
    assert_eq!(split_whitespace(" a\tb\n\u{3000}c  "), strings(&["a", "b", "c"]));
    assert_eq!(split_whitespace("   "), Vec::<String>::new());
    assert_eq!(split_whitespace(""), Vec::<String>::new());
}

#[test]
fn split_at_first_colon() {
    assert_eq!(split_at_char("a:1:2", ':'), ("a".to_string(), Some("1:2".to_string())));
    assert_eq!(split_at_char("a", ':'), ("a".to_string(), None));
    assert_eq!(split_at_char(":5", ':'), ("".to_string(), Some("5".to_string())));
}

#[test]
fn start_sequence_cuts_the_line() {
    assert_eq!(frame_text("x:y a:2 b", ""), "x:y a:2 b");
    assert_eq!(frame_text("x:y a:2 b", ":"), "y a:2 b");
    assert_eq!(frame_text("log.txt:12: A B", ": "), "A B");
    assert_eq!(frame_text("no sequence here", "::"), "");
    assert_eq!(frame_text("aaaa", "aa"), "aa");
    assert_eq!(frame_text("ab::cd::ef", "::"), "cd::ef");
    assert_eq!(frame_text("aba", "a"), "ba");
}

#[test]
fn start_sequence_in_a_line_read() {
    let (counts, strs) =
        read_kvc_line(&"grep:A A 2021-01-01".to_string(), &get_reserved_matchers(), ":", &f32_total);
    assert_eq!(strs, vec![pair("Date", "2021-01-01")]);
    assert_eq!(counts, vec![("A".to_string(), 2.0)]);
}

#[test]
fn comment_ends_the_frame() {
    let kw = get_reserved_matchers();
    let a = read_frame("A B:2 # C D", &kw, "");
    let b = read_frame("A B:2", &kw, "");
    assert_eq!(a.strings, b.strings);
    assert_eq!(a.counts, b.counts);
    // a '#' inside a token does not end the frame
    let c = read_frame("A#b C", &kw, "");
    assert_eq!(c.counts.len(), 2);
}

#[test]
fn repeated_keys_accumulate() {
    let (counts, _) = read_kvc_line_default(&"K K K K K".to_string(), &f32_total);
    assert_eq!(counts, vec![("K".to_string(), 5.0)]);
    let (counts, _) = read_kvc_line_default(&"K:4 K".to_string(), &f32_total);
    assert_eq!(counts, vec![("K".to_string(), 5.0)]);
    let f = read_frame("K:4 K", &get_reserved_matchers(), "");
    assert_eq!(f.counts, vec![("K".to_string(), strings(&["4", "1"]))]);
}

#[test]
fn new_keys_come_first() {
    let f = read_frame("a b:2 a:3 c", &get_reserved_matchers(), "");
    assert_eq!(
        f.counts,
        vec![
            ("c".to_string(), strings(&["1"])),
            ("b".to_string(), strings(&["2"])),
            ("a".to_string(), strings(&["1", "3"])),
        ]
    );
}

#[test]
fn count_text_is_between_colons() {
    let f = read_frame("a:1:2 b: :5", &get_reserved_matchers(), "");
    assert_eq!(
        f.counts,
        vec![
            ("".to_string(), strings(&["5"])),
            ("b".to_string(), strings(&[""])),
            ("a".to_string(), strings(&["1"])),
        ]
    );
}

#[test]
fn keyword_keeps_the_last_key() {
    let f = read_frame("2021-01-01 x 2021-02-03", &get_reserved_matchers(), "");
    assert_eq!(f.strings, vec![pair("Date", "2021-02-03")]);
    assert_eq!(f.counts, vec![("x".to_string(), strings(&["1"]))]);
}

#[test]
fn keyword_key_keeps_its_count_text_out() {
    let f = read_frame("2021-01-01:7", &get_reserved_matchers(), "");
    assert_eq!(f.strings, vec![pair("Date", "2021-01-01")]);
    assert!(f.counts.is_empty());
}

#[test]
fn first_matching_keyword_wins() {
    let kw = vec![pair("Num", r"^\d+$"), pair("Two", r"^\d\d$")];
    let f = read_frame("12 345", &kw, "");
    assert_eq!(f.strings, vec![pair("Num", "345")]);
}

#[test]
fn invalid_pattern_matches_nothing() {
    let kw = vec![pair("Bad", "("), pair("Any", ".")];
    let f = read_frame("x", &kw, "");
    assert_eq!(f.strings, vec![pair("Any", "x")]);
    let f = read_frame("x", &vec![pair("Bad", "(")], "");
    assert_eq!(f.counts, vec![("x".to_string(), strings(&["1"]))]);
}

#[test]
fn date_pattern_needs_the_whole_key() {
    let f = read_frame("2021-01-01AAAAAA 1-2-3", &get_reserved_matchers(), "");
    assert!(f.strings.is_empty());
    assert_eq!(f.counts.len(), 2);
}

#[test]
fn keys_without_number_are_left_out() {
    let (counts, strs) = read_kvc_line_default(&"a:x b:2 a:y".to_string(), &f32_total);
    assert!(strs.is_empty());
    assert_eq!(counts, vec![("b".to_string(), 2.0)]);
}

#[test]
fn totals_follow_the_groups() {
    let groups = vec![
        ("b".to_string(), strings(&["1", "2"])),
        ("a".to_string(), strings(&["x"])),
        ("c".to_string(), strings(&["0.5"])),
    ];
    let totals = tally_counts(&groups, &f32_total);
    assert_eq!(totals, vec![("b".to_string(), 3.0), ("c".to_string(), 0.5)]);
}

#[test]
fn empty_line_is_empty() {
    let (counts, strs) = read_kvc_line_default(&"".to_string(), &f32_total);
    assert!(counts.is_empty());
    assert!(strs.is_empty());
}

#[test]
fn table_rows_overwrite_and_skip() {
    let mut t = KvcTable::new();
    t.add_row(&vec![], &vec![]);
    assert_eq!(t.rows, 0);
    t.add_row(&vec![pair("Date", "d")], &vec![pair("Date", "3"), pair("x", "1")]);
    assert_eq!(t.rows, 1);
    let ((r, c), entries, names) = t.into_parts();
    assert_eq!((r, c), (1, 2));
    assert_eq!(names, strings(&["Date", "x"]));
    assert_eq!(
        entries,
        vec![((0, 0), "3".to_string()), ((0, 1), "1".to_string())]
    );
}

#[test]
fn readme_stream() {
    let lines: Vec<String> = README_JOURNAL.lines().map(|l| l.to_string()).collect();
    let (count, records) =
        stream_records(&lines, 0, &get_reserved_matchers(), "", &f32_total_text).unwrap();
    assert_eq!(count, 5);
    let expected: Vec<(i32, String, String)> = vec![
        (1, "a", "1"),
        (2, "event", "2"),
        (3, "Date", "2021-04-01"),
        (3, "april_fools_pranks", "4"),
        (4, "Date", "2021-03-01"),
        (4, "this_twice", "2"),
        (4, "this_has_occured_three_times", "3"),
        (4, "<weird-symbols_ar_ok!>", "1"),
        (4, "a-third-key", "1"),
        (4, "another_key", "1"),
        (4, "key", "1"),
        (5, "Date", "2021-04-02"),
    ]
    .into_iter()
    .map(|(n, k, v)| (n, k.to_string(), v.to_string()))
    .collect();
    assert_eq!(records, expected);
}

#[test]
fn stream_numbers_after_the_start() {
    let lines = strings(&["a", "", "# only a comment", "b"]);
    let (count, records) =
        stream_records(&lines, 10, &get_reserved_matchers(), "", &f32_total_text).unwrap();
    assert_eq!(count, 2);
    assert_eq!(
        records,
        vec![(11, "a".to_string(), "1".to_string()), (12, "b".to_string(), "1".to_string())]
    );
}

#[test]
fn readme_data_frame() {
    let lines: Vec<String> = README_JOURNAL.lines().map(|l| l.to_string()).collect();
    let ((r, c), entries, names) =
        load_table_from_kvc_stream(&lines, &get_reserved_matchers(), "", &f32_total_text).unwrap();
    assert_eq!(r, 5);
    assert_eq!(c, 10);
    assert_eq!(
        names,
        strings(&[
            "a",
            "event",
            "Date",
            "april_fools_pranks",
            "this_twice",
            "this_has_occured_three_times",
            "<weird-symbols_ar_ok!>",
            "a-third-key",
            "another_key",
            "key",
        ])
    );
    let grid = table_grid(r, c, &entries);
    assert_eq!(grid.len(), 5);
    assert_eq!(grid[0][0], "1");
    assert_eq!(grid[0][1], "N/A");
    assert_eq!(grid[1][1], "2");
    assert_eq!(grid[2][2], "2021-04-01");
    assert_eq!(grid[2][3], "4");
    assert_eq!(grid[3][2], "2021-03-01");
    assert_eq!(grid[3][4], "2");
    assert_eq!(grid[3][5], "3");
    assert_eq!(grid[3][9], "1");
    assert_eq!(grid[4][2], "2021-04-02");
    assert_eq!(grid[4][9], "N/A");
}

#[test]
fn no_table_with_a_nameless_column() {
    let kw = get_reserved_matchers();
    // ":x" has no number, so it is dropped and names no column
    let t = load_table_from_kvc_stream(&strings(&["a :x", ":", "b"]), &kw, "", &f32_total_text);
    let ((r, c), _, names) = t.unwrap();
    assert_eq!((r, c), (2, 2));
    assert_eq!(names, strings(&["a", "b"]));
    // ":5" would name a column with nothing
    assert!(load_table_from_kvc_stream(&strings(&["a :5"]), &kw, "", &f32_total_text).is_none());
    // an empty keyword name that never matches is no hindrance
    let kw2 = vec![pair("", "^never$"), pair("Date", r"^\d{4}-\d{2}-\d{2}$")];
    assert!(load_table_from_kvc_stream(&strings(&["a 2021-01-01"]), &kw2, "", &f32_total_text).is_some());
    let kw3 = vec![pair("", "^a$")];
    assert!(load_table_from_kvc_stream(&strings(&["a"]), &kw3, "", &f32_total_text).is_none());
}

#[test]
fn stream_numbers_must_fit() {
    let kw = get_reserved_matchers();
    let lines = strings(&["a", "", "b"]);
    assert!(stream_records(&lines, i32::MAX - 1, &kw, "", &f32_total_text).is_none());
    let (count, records) =
        stream_records(&strings(&["a", "", ""]), i32::MAX - 1, &kw, "", &f32_total_text).unwrap();
    assert_eq!(count, 1);
    assert_eq!(records, vec![(i32::MAX, "a".to_string(), "1".to_string())]);
}

#[test]
fn grid_leaves_cells_outside() {
    let entries = vec![((0, 0), "x".to_string()), ((5, 5), "y".to_string()), ((0, 0), "z".to_string())];
    let grid = table_grid(1, 2, &entries);
    assert_eq!(grid, vec![strings(&["z", "N/A"])]);
}

#[test]
fn stream_frames_match_table_rows() {
    let lines: Vec<String> = README_JOURNAL.lines().map(|l| l.to_string()).collect();
    let mut more = lines.clone();
    more.push("".to_string());
    more.push("# nothing".to_string());
    let (count, _) =
        stream_records(&more, 0, &get_reserved_matchers(), "", &f32_total_text).unwrap();
    let ((r, _), _, _) =
        load_table_from_kvc_stream(&more, &get_reserved_matchers(), "", &f32_total_text).unwrap();
    assert_eq!(count as usize, r);
}

#[test]
fn start_sequence_absent_gives_nothing() {
    let (counts, strs) =
        read_kvc_line(&"A B 2021-01-01".to_string(), &get_reserved_matchers(), ">>", &f32_total);
    assert!(counts.is_empty());
    assert!(strs.is_empty());
}

#[test]
fn table_cell_holds_the_last_value_of_a_line() {
    let lines = strings(&["k:2 k:3 2021-01-01 2021-01-02", "j"]);
    let ((r, c), entries, names) =
        load_table_from_kvc_stream(&lines, &get_reserved_matchers(), "", &f32_total_text).unwrap();
    assert_eq!((r, c), (2, 3));
    assert_eq!(names, strings(&["Date", "k", "j"]));
    let grid = table_grid(r, c, &entries);
    assert_eq!(grid[0], strings(&["2021-01-02", "5", "N/A"]));
    assert_eq!(grid[1], strings(&["N/A", "N/A", "1"]));
}
