use assoc_files::{install_files, mirror, Action, FilePath, Segment, Source, Visit};

/// The path that `text` spells, with `/` between its segments.
fn path(text: &str) -> FilePath {
    let mut segments = Vec::new();
    if text.starts_with('/') {
        segments.push(Segment::Root);
    }
    for part in text.split('/') {
        match part {
            "" => {}
            "." => segments.push(Segment::Current),
            ".." => segments.push(Segment::Parent),
            name => segments.push(Segment::Name(name.as_bytes().to_vec())),
        }
    }
    FilePath { segments }
}

fn create(target: &str) -> Action {
    Action::CreateDir { target: path(target) }
}

fn copy(source: &str, target: &str) -> Action {
    Action::CopyFile { source: path(source), target: path(target) }
}

/// The record of the tree
///
/// ```text
/// <root>/
///   bar.txt
///   baz/
///     quux.txt
/// ```
fn sample_directory(root: &str) -> Source {
    let below = |rest: &str| path(&format!("{}/{}", root.trim_end_matches('/'), rest));
    Source::Directory {
        root: path(root),
        visits: vec![
            Visit::Directory(path(root)),
            Visit::File(below("bar.txt")),
            Visit::Directory(below("baz")),
            Visit::File(below("baz/quux.txt")),
        ],
    }
}

#[test]
fn install_custom() {
    let sources = vec![Source::File(path("data/foo.txt")), sample_directory("data/data")];
    let plan = install_files(&sources, &path("target/tmp"), true);
    assert_eq!(plan.installed(), 3);
    assert_eq!(
        plan.actions(),
        &vec![
            copy("data/foo.txt", "target/tmp/foo.txt"),
            create("target/tmp"),
            copy("data/data/bar.txt", "target/tmp/bar.txt"),
            create("target/tmp/baz"),
            copy("data/data/baz/quux.txt", "target/tmp/baz/quux.txt"),
        ]
    );
}

/// Whether the plan copies some file to `target`.
fn installs(actions: &[Action], target: &FilePath) -> bool {
    actions.iter().any(|action| match action {
        Action::CopyFile { target: to, .. } => to == target,
        Action::CreateDir { .. } => false,
    })
}

#[test]
fn user_config_macro() {
    let target_dir = path("/home/user/.config/assoc_files/0.1.0");
    let sources = vec![Source::File(path("data/foo.txt")), sample_directory("data/data/")];
    let plan = install_files(&sources, &target_dir, false);
    assert_eq!(plan.installed(), 3);
    for file in &["foo.txt", "bar.txt", "baz/quux.txt"] {
        assert!(installs(plan.actions(), &target_dir.join(&path(file))));
    }
    assert_eq!(plan.actions()[0], Action::CreateDir { target: target_dir });
}

#[test]
fn user_data_macro() {
    let target_dir = path("/home/user/.local/share/assoc_files/0.1.0");
    let sources = vec![Source::File(path("data/foo.txt")), sample_directory("data/data/")];
    let plan = install_files(&sources, &target_dir, false);
    assert_eq!(plan.installed(), 3);
    for file in &["foo.txt", "bar.txt", "baz/quux.txt"] {
        assert!(installs(plan.actions(), &target_dir.join(&path(file))));
    }
    assert_eq!(plan.actions()[0], Action::CreateDir { target: target_dir });
}

#[test]
fn sample_layout_end_to_end() {
    let sources = vec![Source::File(path("sample/foo.txt")), sample_directory("sample/data")];
    let plan = install_files(&sources, &path("dest"), true);
    assert_eq!(plan.installed(), 3);
    assert_eq!(
        plan.actions(),
        &vec![
            copy("sample/foo.txt", "dest/foo.txt"),
            create("dest"),
            copy("sample/data/bar.txt", "dest/bar.txt"),
            create("dest/baz"),
            copy("sample/data/baz/quux.txt", "dest/baz/quux.txt"),
        ]
    );
    let data = Segment::Name(b"data".to_vec());
    let sample = Segment::Name(b"sample".to_vec());
    for action in plan.actions() {
        let target = match action {
            Action::CreateDir { target } => target,
            Action::CopyFile { target, .. } => target,
        };
        assert!(!target.segments.contains(&data));
        assert!(!target.segments.contains(&sample));
    }
}

#[test]
fn directory_alone_is_mirrored() {
    let source = Source::Directory {
        root: path("/src/tree"),
        visits: vec![
            Visit::Directory(path("/src/tree")),
            Visit::Directory(path("/src/tree/empty")),
            Visit::Directory(path("/src/tree/a")),
            Visit::File(path("/src/tree/a/one")),
            Visit::Directory(path("/src/tree/a/b")),
            Visit::File(path("/src/tree/a/b/two")),
            Visit::File(path("/src/tree/three")),
        ],
    };
    let plan = install_files(&[source], &path("/out"), true);
    assert_eq!(plan.installed(), 3);
    assert_eq!(
        plan.actions(),
        &vec![
            create("/out"),
            create("/out/empty"),
            create("/out/a"),
            copy("/src/tree/a/one", "/out/a/one"),
            create("/out/a/b"),
            copy("/src/tree/a/b/two", "/out/a/b/two"),
            copy("/src/tree/three", "/out/three"),
        ]
    );
}

#[test]
fn file_source_is_flattened() {
    let plan = install_files(&[Source::File(path("/a/b/c/readme.md"))], &path("dest"), true);
    assert_eq!(plan.installed(), 1);
    assert_eq!(plan.actions(), &vec![copy("/a/b/c/readme.md", "dest/readme.md")]);
}

#[test]
fn count_leaves_directories_out() {
    let source = Source::Directory {
        root: path("d"),
        visits: vec![
            Visit::Directory(path("d")),
            Visit::Directory(path("d/x")),
            Visit::Directory(path("d/y")),
            Visit::File(path("d/y/f")),
        ],
    };
    let plan = install_files(&[source], &path("dest"), false);
    assert_eq!(plan.actions().len(), 5);
    assert_eq!(plan.installed(), 1);
}

#[test]
fn only_directories_count_nothing() {
    let source = Source::Directory {
        root: path("d"),
        visits: vec![Visit::Directory(path("d")), Visit::Directory(path("d/x"))],
    };
    let plan = install_files(&[source], &path("dest"), true);
    assert_eq!(plan.installed(), 0);
    assert_eq!(plan.actions(), &vec![create("dest"), create("dest/x")]);
}

#[test]
fn second_installation_plans_the_same_copies() {
    let sources = vec![Source::File(path("sample/foo.txt")), sample_directory("sample/data")];
    let first = install_files(&sources, &path("dest"), false);
    let second = install_files(&sources, &path("dest"), true);
    assert_eq!(first.installed(), 3);
    assert_eq!(second.installed(), 3);
    assert_eq!(first.actions()[0], create("dest"));
    assert_eq!(&first.actions()[1..], &second.actions()[..]);
}

#[test]
fn missing_destination_is_created_first() {
    let plan = install_files(&[Source::File(path("a/f"))], &path("/x/y/z"), false);
    assert_eq!(plan.actions(), &vec![create("/x/y/z"), copy("a/f", "/x/y/z/f")]);
    assert_eq!(plan.installed(), 1);
}

#[test]
fn existing_destination_is_not_created() {
    let plan = install_files(&[Source::File(path("a/f"))], &path("/x/y/z"), true);
    assert_eq!(plan.actions(), &vec![copy("a/f", "/x/y/z/f")]);
}

#[test]
fn no_sources_into_missing_destination() {
    let plan = install_files(&[], &path("dest"), false);
    assert_eq!(plan.actions(), &vec![create("dest")]);
    assert_eq!(plan.installed(), 0);
}

#[test]
fn no_sources_into_existing_destination() {
    let plan = install_files(&[], &path("dest"), true);
    assert!(plan.actions().is_empty());
    assert_eq!(plan.installed(), 0);
}

#[test]
fn existing_file_is_overwritten() {
    // The plan does not depend on what the destination holds: the copy to
    // `dest/foo.txt` is asked for whether or not a file is there already.
    let plan = install_files(&[Source::File(path("sample/foo.txt"))], &path("dest"), true);
    assert_eq!(plan.actions(), &vec![copy("sample/foo.txt", "dest/foo.txt")]);
}

#[test]
fn later_source_overwrites_earlier() {
    let sources = vec![Source::File(path("one/same.txt")), Source::File(path("two/same.txt"))];
    let plan = install_files(&sources, &path("dest"), true);
    assert_eq!(
        plan.actions(),
        &vec![copy("one/same.txt", "dest/same.txt"), copy("two/same.txt", "dest/same.txt")]
    );
    assert_eq!(plan.installed(), 2);
}

#[test]
fn missing_source_is_passed_over() {
    let sources = vec![Source::Other, Source::File(path("a/f")), Source::Other];
    let plan = install_files(&sources, &path("dest"), true);
    assert_eq!(plan.actions(), &vec![copy("a/f", "dest/f")]);
    assert_eq!(plan.installed(), 1);
}

#[test]
fn only_missing_sources() {
    let plan = install_files(&[Source::Other], &path("dest"), true);
    assert!(plan.actions().is_empty());
    assert_eq!(plan.installed(), 0);
}

#[test]
fn unreadable_entries_are_passed_over() {
    let source = Source::Directory {
        root: path("d"),
        visits: vec![
            Visit::Directory(path("d")),
            Visit::Other,
            Visit::File(path("d/f")),
            Visit::Other,
        ],
    };
    let plan = install_files(&[source], &path("dest"), true);
    assert_eq!(plan.actions(), &vec![create("dest"), copy("d/f", "dest/f")]);
    assert_eq!(plan.installed(), 1);
}

#[test]
fn file_source_without_a_name_is_passed_over() {
    let sources =
        vec![Source::File(path("a/..")), Source::File(path("/")), Source::File(path(""))];
    let plan = install_files(&sources, &path("dest"), true);
    assert!(plan.actions().is_empty());
    assert_eq!(plan.installed(), 0);
}

#[test]
fn entry_outside_the_root_keeps_its_whole_path() {
    let source = Source::Directory {
        root: path("d"),
        visits: vec![Visit::File(path("elsewhere/f")), Visit::File(path("/abs/g"))],
    };
    let plan = install_files(&[source], &path("dest"), true);
    assert_eq!(
        plan.actions(),
        &vec![copy("elsewhere/f", "dest/elsewhere/f"), copy("/abs/g", "/abs/g")]
    );
    assert_eq!(plan.installed(), 2);
}

#[test]
fn visit_action_by_kind() {
    let dest = path("dest");
    let root = path("src");
    assert_eq!(Visit::Directory(path("src/a")).action(&dest, &root), Some(create("dest/a")));
    assert_eq!(
        Visit::File(path("src/a/f")).action(&dest, &root),
        Some(copy("src/a/f", "dest/a/f"))
    );
    assert_eq!(Visit::Other.action(&dest, &root), None);
}

#[test]
fn mirror_strips_the_root() {
    assert_eq!(mirror(&path("dest"), &path("a/b"), &path("a/b/c/d")), path("dest/c/d"));
    assert_eq!(mirror(&path("dest"), &path("a/b"), &path("a/b")), path("dest"));
    assert_eq!(mirror(&path("dest"), &path("./a"), &path("./a/f")), path("dest/f"));
    assert_eq!(mirror(&path("dest"), &path("a/b"), &path("a/bc/d")), path("dest/a/bc/d"));
}

#[test]
fn names_that_are_not_unicode_are_kept() {
    let odd = Segment::Name(vec![0x66, 0xff, 0xfe]);
    let source = FilePath { segments: vec![Segment::Name(b"d".to_vec()), odd.clone()] };
    let plan = install_files(&[Source::File(source.clone())], &path("dest"), true);
    let target = FilePath { segments: vec![Segment::Name(b"dest".to_vec()), odd] };
    assert_eq!(plan.actions(), &vec![Action::CopyFile { source, target }]);
}
