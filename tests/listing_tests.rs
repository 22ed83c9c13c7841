use fatimg::format::{Date, DateTime, Time};
use fatimg::listing::{format_entry_line, format_entry_line_with, is_dot, list_lines, EntryInfo, ImageNode};

fn info(name: &str, attributes: u8, len: u64) -> EntryInfo {
    EntryInfo {
        name: name.to_string(),
        attributes,
        len,
        created: DateTime {
            date: Date { year: 2020, month: 2, day: 29 },
            time: Time { hour: 13, min: 4, sec: 5, millis: 60 },
        },
        modified: DateTime {
            date: Date { year: 2021, month: 10, day: 1 },
            time: Time { hour: 8, min: 30, sec: 2, millis: 0 },
        },
        accessed: Date { year: 2022, month: 1, day: 9 },
    }
}

fn file(name: &str, len: u64) -> ImageNode {
    ImageNode { info: info(name, 0x20, len), children: Vec::new() }
}

fn dir(name: &str, children: Vec<ImageNode>) -> ImageNode {
    ImageNode { info: info(name, 0x10, 0), children }
}

#[test]
fn tier_zero_skips_dot_entries() {
    let entries = vec![dir(".", vec![]), dir("..", vec![]), file("a.txt", 3), dir("sub", vec![])];
    assert_eq!(list_lines(&entries, 0, false, 0), vec!["a.txt".to_string(), "sub/".to_string()]);
}

#[test]
fn tier_one_shows_attributes_and_size() {
    let entries = vec![file("a.txt", 12), dir("sub", vec![])];
    assert_eq!(
        list_lines(&entries, 1, false, 0),
        vec!["ARCHIVE size 12 a.txt".to_string(), "DIRECTORY sub/".to_string()]
    );
}

#[test]
fn tier_two_adds_modification_time() {
    let line = format_entry_line(&info("f", 0x20, 0), 2, "");
    assert_eq!(line, "modified 2021-10-01 08:30:02.000 ARCHIVE size 0 f");
}

#[test]
fn tier_three_shows_every_timestamp() {
    let line = format_entry_line(&info("f", 0x21, 5), 3, "  ");
    assert_eq!(
        line,
        "  created 2020-02-29 13:04:05.060 modified 2021-10-01 08:30:02.000 accessed 2022-01-09 READ_ONLY | ARCHIVE size 5 f"
    );
}

#[test]
fn recursion_indents_each_level() {
    let inner = dir("deep", vec![dir(".", vec![]), file("x", 1)]);
    let mid = dir("mid", vec![dir("..", vec![]), inner]);
    let entries = vec![mid, file("top", 2)];
    assert_eq!(
        list_lines(&entries, 0, true, 0),
        vec![
            "mid/".to_string(),
            "  deep/".to_string(),
            "    x".to_string(),
            "top".to_string()
        ]
    );
}

#[test]
fn without_recursion_contents_are_not_listed() {
    let entries = vec![dir("mid", vec![file("x", 1)])];
    assert_eq!(list_lines(&entries, 0, false, 0), vec!["mid/".to_string()]);
}

#[test]
fn starting_indent_is_applied() {
    let entries = vec![file("a", 1)];
    assert_eq!(list_lines(&entries, 0, false, 2), vec!["    a".to_string()]);
}

#[test]
fn dot_names() {
    assert!(is_dot("."));
    assert!(is_dot(".."));
    assert!(!is_dot("..."));
    assert!(!is_dot(".a"));
    assert!(!is_dot(""));
}

#[test]
fn attribute_token_is_placed_before_size() {
    let e = info("data.bin", 0x20, 2000);
    assert_eq!(format_entry_line_with(&e, 1, "", "TOK"), "TOK size 2000 data.bin");
    assert_eq!(format_entry_line_with(&e, 0, "  ", "TOK"), "  data.bin");
    let d = info("sub", 0x10, 0);
    assert_eq!(format_entry_line_with(&d, 1, "", "D"), "D sub/");
}
