//! Tests of the aggregation tree: counts, write taint, conflicts, and the
//! whole trace-to-tree round trip.

use strace_tree::{Directory, Eventer, FDInfo, FileTree, Node, Perms, StraceEvent, spaces};

fn file(path: &str, flags: &str) -> FDInfo {
    FDInfo::File { path: path.to_string(), flags: flags.to_string() }
}

fn child<'a>(d: &'a Directory, name: &str) -> &'a Node {
    &d.items.iter().find(|(k, _)| k == name).expect("missing child").1
}

fn child_dir<'a>(d: &'a Directory, name: &str) -> &'a Directory {
    match child(d, name) {
        Node::Dir(sub) => sub,
        Node::File(_) => panic!("expected a directory"),
    }
}

#[test]
fn empty_input_leaves_bare_root() {
    let t = FileTree::new(vec![]);
    assert!(t.root.items.is_empty());
    assert_eq!(t.root.contained_files, 0);
    assert_eq!(t.root.stain, Perms::Read);
}

#[test]
fn round_trip_two_files_under_shared_directory() {
    let mut e = Eventer::new();
    let events = vec![
        StraceEvent {
            syscall: "openat",
            args: vec!["AT_FDCWD", "\"/a/b/c.txt\"", "O_WRONLY|O_CREAT"],
            result: "3",
        },
        StraceEvent {
            syscall: "openat",
            args: vec!["AT_FDCWD", "\"/a/b/d.txt\"", "O_RDONLY"],
            result: "4",
        },
    ];
    for ev in events {
        e.process(ev).unwrap();
    }
    e.close_all_fds();
    let t = FileTree::new(e.closed_fds);

    assert_eq!(t.root.stain, Perms::Write);
    assert_eq!(t.root.contained_files, 2);
    let a = child_dir(&t.root, "a");
    assert_eq!(a.stain, Perms::Write);
    assert_eq!(a.contained_files, 2);
    let b = child_dir(a, "b");
    assert_eq!(b.stain, Perms::Write);
    assert_eq!(b.contained_files, 2);
    assert_eq!(child(b, "c.txt"), &Node::File(Perms::Write));
    assert_eq!(child(b, "d.txt"), &Node::File(Perms::Read));
}

#[test]
fn file_then_descendant_converts_to_directory_with_dot_entry() {
    let t = FileTree::new(vec![file("/a", "O_WRONLY"), file("/a/b", "O_RDONLY")]);
    let a = child_dir(&t.root, "a");
    assert_eq!(child(a, "."), &Node::File(Perms::Write));
    assert_eq!(child(a, "b"), &Node::File(Perms::Read));
    assert_eq!(t.root.contained_files, 2);
}

#[test]
fn construction_is_a_pure_fold() {
    let items = || {
        vec![
            file("/a/b/c.txt", "O_WRONLY"),
            file("/a/b/d.txt", "O_RDONLY"),
            file("/e", "O_RDWR"),
            FDInfo::Socket,
            FDInfo::Pipe { flags: "O_RDONLY".to_string() },
        ]
    };
    let t1 = FileTree::new(items());
    let t2 = FileTree::new(items());
    assert_eq!(t1, t2);
}

#[test]
fn single_component_path_sits_under_root() {
    let t = FileTree::new(vec![file("/x", "O_RDONLY")]);
    assert_eq!(t.root.contained_files, 1);
    assert_eq!(t.root.stain, Perms::Read);
    assert_eq!(child(&t.root, "x"), &Node::File(Perms::Read));
}

#[test]
fn repeated_path_keeps_last_permission() {
    let t = FileTree::new(vec![file("/a/b", "O_RDONLY"), file("/a/b", "O_WRONLY")]);
    let a = child_dir(&t.root, "a");
    assert_eq!(child(a, "b"), &Node::File(Perms::Write));
    assert_eq!(a.items.len(), 1);
    // Step-3 bookkeeping is unconditional, so the repeated path is counted
    // twice even though only one file node remains.
    assert_eq!(t.root.contained_files, 2);
}

#[test]
fn non_file_descriptors_are_excluded() {
    let t = FileTree::new(vec![
        FDInfo::Socket,
        FDInfo::Pipe { flags: "O_WRONLY".to_string() },
        FDInfo::Stdio { name: "stdin".to_string() },
        FDInfo::Other,
    ]);
    assert!(t.root.items.is_empty());
    assert_eq!(t.root.contained_files, 0);
}

#[test]
fn write_taint_reaches_every_ancestor() {
    let t = FileTree::new(vec![file("/r/s/t/u.bin", "O_RDWR")]);
    assert_eq!(t.root.stain, Perms::Write);
    let r = child_dir(&t.root, "r");
    let s = child_dir(r, "s");
    let t2 = child_dir(s, "t");
    assert_eq!(r.stain, Perms::Write);
    assert_eq!(s.stain, Perms::Write);
    assert_eq!(t2.stain, Perms::Write);
    assert_eq!(child(t2, "u.bin"), &Node::File(Perms::Write));
}

#[test]
fn read_only_files_leave_directories_untainted() {
    let t = FileTree::new(vec![file("/m/n", "O_RDONLY"), file("/m/o", "O_RDONLY")]);
    assert_eq!(t.root.stain, Perms::Read);
    let m = child_dir(&t.root, "m");
    assert_eq!(m.stain, Perms::Read);
    assert_eq!(m.contained_files, 2);
}

#[test]
fn flags_classify_permission() {
    assert_eq!(Perms::from_flags("O_RDONLY"), Perms::Read);
    assert_eq!(Perms::from_flags("O_WRONLY"), Perms::Write);
    assert_eq!(Perms::from_flags("O_RDWR"), Perms::Write);
    assert_eq!(Perms::from_flags("O_RDWR|O_CLOEXEC"), Perms::Write);
    assert_eq!(Perms::from_flags("O_WRONLY|O_CREAT|O_TRUNC"), Perms::Write);
    assert_eq!(Perms::from_flags("O_RDONLY|O_CLOEXEC"), Perms::Read);
    assert_eq!(Perms::from_flags(""), Perms::Read);
}

#[test]
fn relative_path_sits_under_root_unanchored() {
    let t = FileTree::new(vec![file("x/y", "O_RDONLY")]);
    let x = child_dir(&t.root, "x");
    assert_eq!(child(x, "y"), &Node::File(Perms::Read));
    assert_eq!(t.root.contained_files, 1);
}

#[test]
fn pathless_file_is_skipped() {
    let t = FileTree::new(vec![file("", "O_WRONLY")]);
    assert!(t.root.items.is_empty());
    assert_eq!(t.root.contained_files, 0);
    assert_eq!(t.root.stain, Perms::Read);
}

#[test]
fn spaces_builds_indentation() {
    assert_eq!(spaces(0), "");
    assert_eq!(spaces(3), "   ");
    assert_eq!(spaces(8).len(), 8);
}
