use assoc_files::{FilePath, Segment};

fn name(text: &str) -> Segment {
    Segment::Name(text.as_bytes().to_vec())
}

fn prefix(text: &str) -> Segment {
    Segment::Prefix(text.as_bytes().to_vec())
}

fn of(segments: Vec<Segment>) -> FilePath {
    FilePath { segments }
}

#[test]
fn segments_are_the_same_by_kind_and_bytes() {
    assert!(name("a").same(&name("a")));
    assert!(!name("a").same(&name("b")));
    assert!(!name("a").same(&name("ab")));
    assert!(!name("a").same(&prefix("a")));
    assert!(prefix("C:").same(&prefix("C:")));
    assert!(!prefix("C:").same(&prefix("D:")));
    assert!(Segment::Root.same(&Segment::Root));
    assert!(Segment::Current.same(&Segment::Current));
    assert!(Segment::Parent.same(&Segment::Parent));
    assert!(!Segment::Root.same(&Segment::Current));
    assert!(!Segment::Parent.same(&Segment::Current));
    assert!(!name("..").same(&Segment::Parent));
}

#[test]
fn duplicates_are_equal() {
    for segment in [name("a"), prefix("C:"), Segment::Root, Segment::Current, Segment::Parent] {
        assert_eq!(segment.duplicate(), segment);
    }
    let path = of(vec![Segment::Root, name("a"), Segment::Parent, name("b")]);
    assert_eq!(path.duplicate(), path);
    assert_eq!(of(vec![]).duplicate(), of(vec![]));
}

#[test]
fn starts_with_whole_segments() {
    let path = of(vec![name("a"), name("bc"), name("d")]);
    assert!(path.starts_with(&of(vec![])));
    assert!(path.starts_with(&of(vec![name("a")])));
    assert!(path.starts_with(&of(vec![name("a"), name("bc")])));
    assert!(path.starts_with(&path.duplicate()));
    assert!(!path.starts_with(&of(vec![name("a"), name("b")])));
    assert!(!path.starts_with(&of(vec![name("bc")])));
    assert!(!path.starts_with(&of(vec![name("a"), name("bc"), name("d"), name("e")])));
    assert!(!path.starts_with(&of(vec![Segment::Root, name("a")])));
}

#[test]
fn strip_prefix_gives_the_rest() {
    let path = of(vec![name("a"), name("b"), name("c")]);
    assert_eq!(path.strip_prefix(&of(vec![name("a")])), Some(of(vec![name("b"), name("c")])));
    assert_eq!(path.strip_prefix(&of(vec![])), Some(path.duplicate()));
    assert_eq!(path.strip_prefix(&path.duplicate()), Some(of(vec![])));
    assert_eq!(path.strip_prefix(&of(vec![name("b")])), None);
    assert_eq!(path.strip_prefix(&of(vec![name("a"), name("b"), name("c"), name("d")])), None);
}

#[test]
fn join_appends_a_relative_tail() {
    let base = of(vec![Segment::Root, name("a")]);
    assert_eq!(
        base.join(&of(vec![name("b"), name("c")])),
        of(vec![Segment::Root, name("a"), name("b"), name("c")])
    );
    assert_eq!(base.join(&of(vec![])), base);
    assert_eq!(of(vec![]).join(&of(vec![name("b")])), of(vec![name("b")]));
    assert_eq!(
        base.join(&of(vec![Segment::Parent, name("b")])),
        of(vec![Segment::Root, name("a"), Segment::Parent, name("b")])
    );
    assert_eq!(
        base.join(&of(vec![Segment::Current])),
        of(vec![Segment::Root, name("a"), Segment::Current])
    );
}

#[test]
fn join_with_a_rooted_tail_replaces_the_base() {
    let tail = of(vec![Segment::Root, name("x")]);
    assert_eq!(of(vec![Segment::Root, name("a")]).join(&tail), tail);
    assert_eq!(of(vec![name("a"), name("b")]).join(&tail), tail);
    assert_eq!(of(vec![]).join(&tail), tail);
}

#[test]
fn join_with_a_rooted_tail_keeps_the_prefix_of_the_base() {
    let base = of(vec![prefix("C:"), Segment::Root, name("a")]);
    let tail = of(vec![Segment::Root, name("x")]);
    assert_eq!(base.join(&tail), of(vec![prefix("C:"), Segment::Root, name("x")]));
    let bare = of(vec![prefix("C:")]);
    assert_eq!(bare.join(&tail), of(vec![prefix("C:"), Segment::Root, name("x")]));
}

#[test]
fn join_with_a_prefixed_tail_replaces_the_base() {
    let base = of(vec![prefix("C:"), Segment::Root, name("a")]);
    let tail = of(vec![prefix("D:"), name("x")]);
    assert_eq!(base.join(&tail), tail);
    assert_eq!(of(vec![name("a")]).join(&tail), tail);
}

#[test]
fn child_adds_one_name() {
    let base = of(vec![name("a")]);
    assert_eq!(base.child(b"b".to_vec()), of(vec![name("a"), name("b")]));
    assert_eq!(of(vec![]).child(b"b".to_vec()), of(vec![name("b")]));
    assert_eq!(base.child(Vec::new()), of(vec![name("a"), name("")]));
}

#[test]
fn file_name_is_the_last_name() {
    assert_eq!(of(vec![name("a"), name("b.txt")]).file_name(), Some(b"b.txt".to_vec()));
    assert_eq!(of(vec![name("only")]).file_name(), Some(b"only".to_vec()));
    assert_eq!(of(vec![Segment::Root, name("x")]).file_name(), Some(b"x".to_vec()));
    assert_eq!(of(vec![]).file_name(), None);
    assert_eq!(of(vec![Segment::Root]).file_name(), None);
    assert_eq!(of(vec![name("a"), Segment::Parent]).file_name(), None);
    assert_eq!(of(vec![Segment::Current]).file_name(), None);
    assert_eq!(of(vec![prefix("C:")]).file_name(), None);
}
