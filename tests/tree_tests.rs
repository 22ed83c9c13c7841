use fatimg::format::{Date, DateTime, Time};
use fatimg::listing::{EntryInfo, ImageNode};
use fatimg::tree::{
    any_real_entry, name_less, plan_read_tree, plan_write_tree, sort_by_name, HostDestination, HostKind, HostNode, OpKind,
    TreeError, TreeOp,
};

fn host(name: &str, kind: HostKind, children: Vec<HostNode>) -> HostNode {
    HostNode { name: name.to_string(), kind, children }
}

fn image(name: &str, attributes: u8, children: Vec<ImageNode>) -> ImageNode {
    let dt = DateTime {
        date: Date { year: 2000, month: 1, day: 1 },
        time: Time { hour: 0, min: 0, sec: 0, millis: 0 },
    };
    ImageNode {
        info: EntryInfo {
            name: name.to_string(),
            attributes,
            len: 0,
            created: dt,
            modified: dt,
            accessed: dt.date,
        },
        children,
    }
}

fn steps(ops: &[TreeOp]) -> Vec<(OpKind, String)> {
    ops.iter().map(|op| (op.kind, op.path.join("/"))).collect()
}

fn names(v: &[&str]) -> Vec<String> {
    v.iter().map(|s| s.to_string()).collect()
}

#[test]
fn write_into_populated_directory_fails() {
    let entries = vec![host("a", HostKind::File, vec![])];
    let dest = names(&[".", "..", "a"]);
    assert!(matches!(plan_write_tree(&dest, &entries), Err(TreeError::DestinationNotEmpty)));
}

#[test]
fn dot_entries_do_not_count_as_content() {
    assert!(!any_real_entry(&names(&[".", ".."])));
    assert!(any_real_entry(&names(&["x"])));
    let entries = vec![host("a", HostKind::File, vec![])];
    let ops = plan_write_tree(&names(&[".", ".."]), &entries).unwrap();
    assert_eq!(steps(&ops), vec![(OpKind::CopyFile, "a".to_string())]);
}

#[test]
fn nested_tree_is_planned_depth_first() {
    let entries = vec![
        host(
            "d",
            HostKind::Directory,
            vec![
                host("e", HostKind::Directory, vec![host("f.bin", HostKind::File, vec![])]),
                host("g", HostKind::File, vec![]),
            ],
        ),
        host("h", HostKind::File, vec![]),
    ];
    let ops = plan_write_tree(&Vec::new(), &entries).unwrap();
    assert_eq!(
        steps(&ops),
        vec![
            (OpKind::CreateDir, "d".to_string()),
            (OpKind::CreateDir, "d/e".to_string()),
            (OpKind::CopyFile, "d/e/f.bin".to_string()),
            (OpKind::CopyFile, "d/g".to_string()),
            (OpKind::CopyFile, "h".to_string()),
        ]
    );
}

#[test]
fn symlinks_are_skipped_not_created() {
    let entries = vec![
        host("link", HostKind::Symlink, vec![]),
        host("fifo", HostKind::Other, vec![]),
        host("real", HostKind::File, vec![]),
    ];
    let ops = plan_write_tree(&Vec::new(), &entries).unwrap();
    assert_eq!(
        steps(&ops),
        vec![
            (OpKind::Skip, "link".to_string()),
            (OpKind::Skip, "fifo".to_string()),
            (OpKind::CopyFile, "real".to_string()),
        ]
    );
    assert!(!ops.iter().any(|op| op.kind != OpKind::Skip && op.path == vec!["link".to_string()]));
}

#[test]
fn read_refuses_bad_destinations() {
    let entries = vec![image("a", 0x20, vec![])];
    assert!(matches!(
        plan_read_tree(HostDestination::NotADirectory, true, &entries),
        Err(TreeError::DestinationTypeMismatch)
    ));
    assert!(matches!(
        plan_read_tree(HostDestination::NonEmptyDirectory, false, &entries),
        Err(TreeError::DestinationNotEmpty)
    ));
}

#[test]
fn read_creates_missing_root_and_forces_over_content() {
    let entries = vec![image(".", 0x10, vec![]), image("a", 0x20, vec![])];
    let (create, ops) = plan_read_tree(HostDestination::Missing, false, &entries).unwrap();
    assert!(create);
    assert_eq!(steps(&ops), vec![(OpKind::CopyFile, "a".to_string())]);
    let (create, ops) = plan_read_tree(HostDestination::NonEmptyDirectory, true, &entries).unwrap();
    assert!(!create);
    assert_eq!(ops.len(), 1);
    let (create, _) = plan_read_tree(HostDestination::EmptyDirectory, false, &entries).unwrap();
    assert!(!create);
}

#[test]
fn write_then_read_gives_the_same_steps() {
    let hosts = vec![
        host("docs", HostKind::Directory, vec![host("a.txt", HostKind::File, vec![])]),
        host("empty", HostKind::Directory, vec![]),
        host("z", HostKind::File, vec![]),
    ];
    let images = vec![
        image(".", 0x10, vec![]),
        image("..", 0x10, vec![]),
        image(
            "docs",
            0x10,
            vec![image(".", 0x10, vec![]), image("..", 0x10, vec![]), image("a.txt", 0x20, vec![])],
        ),
        image("empty", 0x10, vec![image(".", 0x10, vec![]), image("..", 0x10, vec![])]),
        image("z", 0x20, vec![]),
    ];
    let written = plan_write_tree(&Vec::new(), &hosts).unwrap();
    let (_, read) = plan_read_tree(HostDestination::Missing, false, &images).unwrap();
    assert_eq!(steps(&written), steps(&read));
}

#[test]
fn names_compare_by_code_point() {
    assert!(name_less("a", "ab"));
    assert!(!name_less("ab", "a"));
    assert!(!name_less("a", "a"));
    assert!(name_less("", "a"));
    assert!(name_less("B", "a"));
    assert!(!name_less("\u{e9}", "z"));
}

#[test]
fn host_entries_are_sorted_by_name() {
    let entries = vec![
        host("b", HostKind::File, vec![]),
        host("a", HostKind::Directory, vec![]),
        host("B", HostKind::Symlink, vec![]),
        host("ab", HostKind::File, vec![]),
        host("", HostKind::Other, vec![]),
    ];
    let sorted = sort_by_name(entries);
    let got: Vec<&str> = sorted.iter().map(|n| n.name.as_str()).collect();
    assert_eq!(got, vec!["", "B", "a", "ab", "b"]);
    assert_eq!(sorted[2].kind, HostKind::Directory);
    assert_eq!(sorted[1].kind, HostKind::Symlink);
}
