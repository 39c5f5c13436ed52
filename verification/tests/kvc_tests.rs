use kvc::{
    get_reserved_matchers, load_table_from_kvc_stream_default, read_kvc_line,
    read_kvc_line_default,
};
use std::io::BufRead;
use std::io::Cursor;

/// The total of a key as the journal counts it: the count texts read as
/// `f32` and added up from 0, texts that are no number left out.
fn f32_total(texts: &Vec<String>) -> Option<f32> {
    let mut sum = 0.0f32;
    let mut any = false;
    for t in texts {
        if let Ok(v) = t.parse::<f32>() {
            sum = sum + v;
            any = true;
        }
    }
    if any {
        Some(sum)
    } else {
        None
    }
}

/// The same total, as the text that a table cell holds.
fn f32_total_text(texts: &Vec<String>) -> Option<String> {
    f32_total(texts).map(|v| v.to_string())
}

fn lines_of(data: Cursor<&str>) -> Vec<String> {
    data.lines().map(|l| l.unwrap()).collect()
}

#[test]
fn keywords_are_returned() {
    assert_eq!(get_reserved_matchers().len(), 1);
    let (name, _) = get_reserved_matchers().into_iter().next().unwrap();
    assert_eq!(name, "Date");
}

#[test]
fn line_accepts_keywords() {
    let mut keywords = get_reserved_matchers();
    keywords.push(("One-plus-one".to_string(), r"^\d{1}\+\d{1}$".to_string()));
    let (counts, strs) =
        read_kvc_line(&"    2021-01-01 \n 1+1   ".to_string(), &keywords, &"", &f32_total);
    assert_eq!(counts.len(), 0);
    assert_eq!(strs.len(), 2);
    assert_eq!(strs[0], ("One-plus-one".to_string(), "1+1".to_string()));
    assert_eq!(strs[1], ("Date".to_string(), "2021-01-01".to_string()));
}

#[test]
fn line_gets_date() {
    let (counts, strs) = read_kvc_line_default(&"    2021-01-01 ".to_string(), &f32_total);
    assert_eq!(strs.len(), 1);
    assert_eq!(counts.len(), 0);
    assert_eq!(strs[0], ("Date".to_string(), "2021-01-01".to_string()));
}

#[test]
fn line_counts_tokens() {
    let (counts, strs) =
        read_kvc_line_default(&" A A A B  B C Z:4 Y:2 Y:3 ".to_string(), &f32_total);
    assert_eq!(strs.len(), 0);
    assert_eq!(counts.len(), 5);
    for (key, val) in counts {
        match &key[..] {
            "A" => assert_eq!(val, 3.0),
            "B" => assert_eq!(val, 2.0),
            "C" => assert_eq!(val, 1.0),
            "Y" => assert_eq!(val, 5.0),
            "Z" => assert_eq!(val, 4.0),
            _ => panic!("Found unexpected token:{}", key),
        }
    }
}

#[test]
fn line_ignores_comments() {
    let (counts, strs) =
        read_kvc_line_default(&" A # A A B  B C Z:4 Y:2 Y:3 ".to_string(), &f32_total);
    assert_eq!(strs.len(), 0);
    assert_eq!(counts.len(), 1);
    for (key, val) in counts {
        match &key[..] {
            "A" => assert_eq!(val, 1.0),
            _ => panic!("Found unexpected token:{}", key),
        }
    }
}

#[test]
fn table_size() {
    let data = Cursor::new("A # NO\n A A # \n A A A\n\n");
    let ((r, c), _entries, names) =
        load_table_from_kvc_stream_default(&lines_of(data), &f32_total_text).unwrap();
    assert_eq!(r, 3);
    assert_eq!(c, 1);
    assert_eq!(names[0], "A");
    assert_eq!(names.len(), c);
}

#[test]
fn date_matches_only_date() {
    let data = Cursor::new(" 2021-01-01AAAAAA \n 2021-01-012021-01-02 \n 2021-02-02      ");
    let ((r, c), entries, names) =
        load_table_from_kvc_stream_default(&lines_of(data), &f32_total_text).unwrap();
    //should get three entries. Two weirdly named tokens and one Date
    assert_eq!(r, 3);
    assert_eq!(c, 3);
    assert_eq!(names[0], "2021-01-01AAAAAA");
    assert_eq!(names[1], "2021-01-012021-01-02");
    assert_eq!(names[2], "Date");
    assert_eq!(entries.len(), 3);

    for (idx, entry) in entries {
        match idx {
            (0, 0) => assert_eq!(entry, (1.0).to_string()),
            (1, 1) => assert_eq!(entry, (1.0).to_string()),
            (2, 2) => assert_eq!(entry, "2021-02-02"),
            _ => {
                let (i, j) = idx;
                panic!("Found unexpected entry: ({},{}) {}", i, j, entry);
            }
        }
    }
}
