use fviewr::{
    expand_dir, render_colored, render_plain, scan_files, traverse, Args, FileInTree, FileType,
    FileWithName, Files, Listing, RawMeta, TargetKind, Tree,
};
use fviewr::text::{is_hidden_name, str_lex_le, usize_to_string};
use fviewr::files::classify;

fn file_meta(name: &str) -> RawMeta {
    RawMeta {
        name: name.to_string(),
        lstat_ok: true,
        is_symlink: false,
        stat_ok: true,
        is_file: true,
        is_dir: false,
        mode: 0o100644,
        link_target: String::new(),
        target_kind: TargetKind::Invalid,
    }
}

fn dir_meta(name: &str) -> RawMeta {
    RawMeta {
        name: name.to_string(),
        lstat_ok: true,
        is_symlink: false,
        stat_ok: true,
        is_file: false,
        is_dir: true,
        mode: 0o40755,
        link_target: String::new(),
        target_kind: TargetKind::Invalid,
    }
}

fn broken_link_meta(name: &str, target: &str) -> RawMeta {
    RawMeta {
        name: name.to_string(),
        lstat_ok: true,
        is_symlink: true,
        stat_ok: false,
        is_file: false,
        is_dir: false,
        mode: 0,
        link_target: target.to_string(),
        target_kind: TargetKind::Invalid,
    }
}

fn unreadable_meta(name: &str) -> RawMeta {
    RawMeta {
        name: name.to_string(),
        lstat_ok: false,
        is_symlink: false,
        stat_ok: false,
        is_file: false,
        is_dir: false,
        mode: 0,
        link_target: String::new(),
        target_kind: TargetKind::Invalid,
    }
}

fn listing(path: &str, entries: Vec<RawMeta>) -> Listing {
    Listing { path: path.to_string(), entries }
}

#[test]
fn empty_root_directory() {
    let tree = scan_files(dir_meta("."), 1, false, vec![listing(".", vec![])]);
    let out = render_plain(&tree);
    assert_eq!(out, "drwxr-xr-x .\n0 directories, 1 files\n");
}

#[test]
fn depth_one_stops_before_subdirectories() {
    let tree = scan_files(
        dir_meta("."),
        1,
        false,
        vec![
            listing(".", vec![file_meta("a.txt"), file_meta(".hidden"), dir_meta("sub")]),
            listing("./sub", vec![file_meta("x.txt")]),
        ],
    );
    let out = render_plain(&tree);
    assert_eq!(
        out,
        "drwxr-xr-x .\n├─-rw-r--r-- a.txt \n└─drwxr-xr-x sub \n1 directories, 1 files\n"
    );
}

#[test]
fn broken_symlink_renders_and_counts_as_file() {
    let tree = scan_files(
        dir_meta("."),
        1,
        false,
        vec![listing(".", vec![broken_link_meta("link", "missing")])],
    );
    let out = render_plain(&tree);
    assert_eq!(
        out,
        "drwxr-xr-x .\n└─?--------- link   ->   missing \n0 directories, 1 files\n"
    );
    let colored_out = render_colored(&tree);
    assert!(colored_out.contains("link"));
    assert!(colored_out.contains("missing"));
    assert!(colored_out.ends_with("0 directories, 1 files\n"));
}

#[test]
fn depth_bound_is_respected() {
    let tree = scan_files(
        dir_meta("."),
        2,
        false,
        vec![
            listing(".", vec![dir_meta("sub")]),
            listing("./sub", vec![dir_meta("inner")]),
            listing("./sub/inner", vec![file_meta("leaf.txt")]),
        ],
    );
    let out = render_plain(&tree);
    assert_eq!(
        out,
        "drwxr-xr-x .\n└─drwxr-xr-x sub \n  └─drwxr-xr-x inner \n2 directories, 0 files\n"
    );
    assert!(!out.contains("leaf.txt"));
}

#[test]
fn depth_zero_shows_only_the_root() {
    let tree = scan_files(
        dir_meta("."),
        0,
        false,
        vec![listing(".", vec![file_meta("a.txt"), dir_meta("sub")])],
    );
    let out = render_plain(&tree);
    assert_eq!(out, "drwxr-xr-x .\n0 directories, 1 files\n");
}

#[test]
fn siblings_appear_in_lexicographic_path_order() {
    let tree = scan_files(
        dir_meta("."),
        1,
        false,
        vec![listing(
            ".",
            vec![file_meta("b.txt"), file_meta("a.txt"), file_meta("c.txt")],
        )],
    );
    let out = render_plain(&tree);
    let pa = out.find("a.txt").unwrap();
    let pb = out.find("b.txt").unwrap();
    let pc = out.find("c.txt").unwrap();
    assert!(pa < pb && pb < pc);
}

#[test]
fn capital_letters_sort_before_lowercase() {
    let tree = scan_files(
        dir_meta("."),
        1,
        false,
        vec![listing(".", vec![file_meta("alpha"), file_meta("Beta")])],
    );
    let out = render_plain(&tree);
    assert!(out.find("Beta").unwrap() < out.find("alpha").unwrap());
}

#[test]
fn exactly_one_terminal_connector_per_level() {
    let tree = scan_files(
        dir_meta("."),
        1,
        false,
        vec![listing(
            ".",
            vec![file_meta("a"), file_meta("b"), file_meta("c")],
        )],
    );
    let out = render_plain(&tree);
    assert_eq!(out.matches("├─").count(), 2);
    assert_eq!(out.matches("└─").count(), 1);
    // The terminal connector stands on the lexicographically last child.
    let terminal_line = out.lines().find(|l| l.starts_with("└─")).unwrap();
    assert!(terminal_line.contains(" c "));
}

#[test]
fn summary_counts_directories_and_files() {
    let tree = scan_files(
        dir_meta("."),
        2,
        false,
        vec![
            listing(
                ".",
                vec![dir_meta("d1"), dir_meta("d2"), file_meta("f1"), file_meta("f2"),
                    file_meta("f3")],
            ),
            listing("./d1", vec![]),
            listing("./d2", vec![]),
        ],
    );
    let out = render_plain(&tree);
    assert!(out.ends_with("2 directories, 3 files\n"));
}

#[test]
fn hidden_entries_follow_the_flag_at_every_level() {
    let listings = || {
        vec![
            listing(".", vec![file_meta(".top"), dir_meta("sub"), file_meta("seen")]),
            listing("./sub", vec![file_meta(".deep"), file_meta("shown")]),
        ]
    };
    let without = render_plain(&scan_files(dir_meta("."), 2, false, listings()));
    assert!(!without.contains(".top"));
    assert!(!without.contains(".deep"));
    assert!(without.contains("seen"));
    assert!(without.contains("shown"));
    let with = render_plain(&scan_files(dir_meta("."), 2, true, listings()));
    assert!(with.contains(".top"));
    assert!(with.contains(".deep"));
}

#[test]
fn scanning_twice_builds_identical_trees() {
    let listings = || {
        vec![
            listing(".", vec![dir_meta("sub"), file_meta("a")]),
            listing("./sub", vec![file_meta("x"), dir_meta("deeper")]),
            listing("./sub/deeper", vec![file_meta("y")]),
        ]
    };
    let first = render_plain(&scan_files(dir_meta("."), 3, false, listings()));
    let second = render_plain(&scan_files(dir_meta("."), 3, false, listings()));
    assert_eq!(first, second);
}

#[test]
fn file_root_renders_alone() {
    let tree = scan_files(file_meta("notes.txt"), 1, false, vec![]);
    let out = render_plain(&tree);
    assert_eq!(out, "-rw-r--r-- notes.txt\n0 directories, 1 files\n");
}

#[test]
fn unreadable_root_still_renders() {
    let tree = scan_files(unreadable_meta("gone"), 1, false, vec![]);
    let out = render_plain(&tree);
    assert_eq!(out, "?--------- gone\n0 directories, 1 files\n");
}

#[test]
fn directory_without_listing_stays_a_leaf() {
    let tree = scan_files(
        dir_meta("."),
        2,
        false,
        vec![listing(".", vec![dir_meta("sealed")])],
    );
    let out = render_plain(&tree);
    assert_eq!(out, "drwxr-xr-x .\n└─drwxr-xr-x sealed \n1 directories, 0 files\n");
}

#[test]
fn permission_groups() {
    assert_eq!(Files::get_permission(0o7), "rwx");
    assert_eq!(Files::get_permission(0o5), "r-x");
    assert_eq!(Files::get_permission(0o6), "rw-");
    assert_eq!(Files::get_permission(0o0), "---");
    assert_eq!(Files::get_permission(0o2), "-w-");
    assert_eq!(Files::get_permission(0o1), "--x");
}

#[test]
fn mode_strings() {
    assert_eq!(Files::mode_string(0o100644), "-rw-r--r--");
    assert_eq!(Files::mode_string(0o40755), "drwxr-xr-x");
    assert_eq!(Files::mode_string(0o120777), "lrwxrwxrwx");
    assert_eq!(Files::mode_string(0o20620), "crw--w----");
    assert_eq!(Files::mode_string(0o60660), "brw-rw----");
    assert_eq!(Files::mode_string(0o10644), "prw-r--r--");
    assert_eq!(Files::mode_string(0o140755), "srwxr-xr-x");
    assert_eq!(Files::mode_string(0), "?---------");
}

#[test]
fn classification_of_metadata() {
    assert!(matches!(classify(&file_meta("x")), FileType::File));
    assert!(matches!(classify(&dir_meta("d")), FileType::Directory));
    assert!(matches!(classify(&unreadable_meta("u")), FileType::Invalid));
    match classify(&broken_link_meta("l", "missing")) {
        FileType::SoftLink(target, kind) => {
            assert_eq!(target, "missing");
            assert!(matches!(kind, TargetKind::Invalid));
        },
        _ => panic!("a symbolic link must classify as a link"),
    }
    let mut other = file_meta("o");
    other.is_file = false;
    assert!(matches!(classify(&other), FileType::Other));
}

#[test]
fn decimal_rendering() {
    assert_eq!(usize_to_string(0), "0");
    assert_eq!(usize_to_string(7), "7");
    assert_eq!(usize_to_string(42), "42");
    assert_eq!(usize_to_string(12345), "12345");
}

#[test]
fn lexicographic_string_order() {
    assert!(str_lex_le("a", "b"));
    assert!(!str_lex_le("b", "a"));
    assert!(str_lex_le("ab", "abc"));
    assert!(!str_lex_le("abc", "ab"));
    assert!(str_lex_le("", ""));
    assert!(str_lex_le("same", "same"));
}

#[test]
fn hidden_names_start_with_a_dot() {
    assert!(is_hidden_name(".x"));
    assert!(!is_hidden_name("x"));
    assert!(!is_hidden_name(""));
}

#[test]
fn cursor_visits_root_then_each_directory_once() {
    let mut tree = Tree::new(&dir_meta("."), 2, false);
    let mut stack: Vec<usize> = Vec::new();
    // First call: the root itself.
    let first = traverse(&tree, &mut stack, 2, 0);
    assert_eq!(first, Some(0));
    expand_dir(&mut tree, 0, vec![file_meta("a"), dir_meta("sub")]);
    // Next: the only directory child.
    let second = traverse(&tree, &mut stack, 2, 0).unwrap();
    expand_dir(&mut tree, second, vec![]);
    // Nothing further to expand.
    let third = traverse(&tree, &mut stack, 2, second);
    assert_eq!(third, None);
}

#[test]
fn expansion_happens_at_most_once() {
    let mut tree = Tree::new(&dir_meta("."), 2, false);
    let mut stack: Vec<usize> = Vec::new();
    let root = traverse(&tree, &mut stack, 2, 0).unwrap();
    expand_dir(&mut tree, root, vec![file_meta("kept")]);
    let before = render_plain(&tree);
    // A second expansion of the same node changes nothing.
    expand_dir(&mut tree, root, vec![file_meta("ignored")]);
    assert_eq!(render_plain(&tree), before);
    assert!(!render_plain(&tree).contains("ignored"));
}

#[test]
fn styled_presentation_carries_the_names() {
    let tree = scan_files(
        dir_meta("."),
        1,
        true,
        vec![listing(".", vec![dir_meta("blue"), file_meta("plain"),
            broken_link_meta("cyan", "nowhere")])],
    );
    let whole = FileInTree(&tree).text();
    assert!(whole.contains("blue"));
    assert!(whole.contains("plain"));
    assert!(whole.contains("cyan"));
    assert!(whole.contains("nowhere"));
    let names = FileWithName(&tree).text();
    assert!(names.contains("blue"));
    assert!(names.contains("plain"));
    assert!(names.contains("cyan"));
}

#[test]
fn colored_segments_per_kind() {
    let node_tree = scan_files(
        dir_meta("."),
        1,
        false,
        vec![listing(".", vec![broken_link_meta("a_link", "t"), file_meta("b_file")])],
    );
    let link_node = &node_tree.nodes[1];
    let segs = link_node.get_colored_name();
    assert_eq!(segs.len(), 3);
    assert!(segs[0].contains("a_link"));
    assert!(segs[2].contains("t"));
    let file_node = &node_tree.nodes[2];
    assert_eq!(file_node.get_colored_name().len(), 1);
}

#[test]
fn arguments_carry_the_three_inputs() {
    let args = Args { target: String::from("."), deep: 3, all: true };
    let tree = scan_files(dir_meta(&args.target), args.deep, args.all, vec![]);
    assert_eq!(tree.deep, 3);
    assert!(tree.all);
}

#[test]
fn continuation_prefix_marks_open_levels() {
    let tree = scan_files(
        dir_meta("."),
        2,
        false,
        vec![
            listing(".", vec![dir_meta("a_dir"), file_meta("z.txt")]),
            listing("./a_dir", vec![file_meta("inner.txt")]),
        ],
    );
    let out = render_plain(&tree);
    assert_eq!(
        out,
        "drwxr-xr-x .\n├─drwxr-xr-x a_dir \n│ └─-rw-r--r-- inner.txt \n└─-rw-r--r-- z.txt \n1 directories, 2 files\n"
    );
}

#[test]
fn unreadable_child_still_appears() {
    let tree = scan_files(
        dir_meta("."),
        1,
        false,
        vec![listing(".", vec![unreadable_meta("mystery"), file_meta("ok.txt")])],
    );
    let out = render_plain(&tree);
    assert!(out.contains("?--------- mystery "));
    assert!(out.ends_with("0 directories, 2 files\n"));
}

#[test]
fn repeated_names_collapse_to_one_child() {
    let tree = scan_files(
        dir_meta("."),
        1,
        false,
        vec![listing(".", vec![file_meta("twin"), dir_meta("twin")])],
    );
    let out = render_plain(&tree);
    // The first listed entry of a repeated path is kept, the later ones
    // are dropped: no two siblings ever share a path.
    assert_eq!(out, "drwxr-xr-x .\n└─-rw-r--r-- twin \n0 directories, 1 files\n");
    assert_eq!(out.matches("twin").count(), 1);
}
