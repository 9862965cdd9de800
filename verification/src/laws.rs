//! What holds of every installation.

use crate::layout::{create_dir_all, creates, last_copy, lemma_creates_concat,
    lemma_last_copy_concat, lemma_one_action, lemma_perform_all_concat,
    lemma_perform_all_settles, lemma_replay, perform_all, Layout, Node};
use crate::path::{file_name_of, PathView, SegmentView};
use crate::plan::{copy_count, destination_actions, install_actions, is_below, is_copy,
    mirrored, source_actions, source_is_regular, sources_actions, sources_are_regular,
    visit_action, visit_is_regular, walk_actions, walk_is_regular, ActionView, SourceView,
    VisitView};
use vstd::prelude::*;

verus! {

/// An entry at or below the root of a walk goes to the place under the
/// destination that it has under the root: the destination, followed by the
/// segments of the entry that come after the root. No segment of the root
/// itself is carried over.
pub proof fn mirrored_drops_root(dest: PathView, root: PathView, path: PathView)
    requires
        is_below(path, root),
    ensures
        mirrored(dest, root, path) == dest + path.skip(root.len() as int),
        dest.is_prefix_of(mirrored(dest, root, path)),
        mirrored(dest, root, path).len() == dest.len() + path.len() - root.len(),
        root + mirrored(dest, root, path).skip(dest.len() as int) == path,
{
    let rest = path.skip(root.len() as int);
    let target = dest + rest;
    assert(target.subrange(0, dest.len() as int) =~= dest);
    assert(target.skip(dest.len() as int) =~= rest);
    assert(root + rest =~= path);
}

/// Two entries at or below the root of a walk that go to the same place are
/// the same entry.
pub proof fn mirrored_is_injective(dest: PathView, root: PathView, one: PathView, other: PathView)
    requires
        is_below(one, root),
        is_below(other, root),
        mirrored(dest, root, one) == mirrored(dest, root, other),
    ensures
        one == other,
{
    mirrored_drops_root(dest, root, one);
    mirrored_drops_root(dest, root, other);
}

/// A run holds a value where the run without its last item holds it, or the
/// last item is that value.
proof fn lemma_contains_last<A>(items: Seq<A>, item: A)
    requires
        items.len() > 0,
    ensures
        items.contains(item) <==> items.drop_last().contains(item) || items.last() == item,
{
    if items.contains(item) {
        let i = choose|i: int| 0 <= i < items.len() && items[i] == item;
        if i < items.len() - 1 {
            assert(items.drop_last()[i] == item);
        }
    }
    if items.drop_last().contains(item) {
        let i = choose|i: int| 0 <= i < items.drop_last().len() && items.drop_last()[i] == item;
        assert(items[i] == item);
    }
    if items.last() == item {
        assert(items[items.len() - 1] == item);
    }
}

/// The actions of a walk are those of the walk without its last visit,
/// followed by what the last visit asks for.
proof fn lemma_walk_last(dest: PathView, root: PathView, visits: Seq<VisitView>)
    requires
        visits.len() > 0,
    ensures
        walk_actions(dest, root, visits) == walk_actions(dest, root, visits.drop_last()) + (
        match visit_action(dest, root, visits.last()) {
            Some(action) => seq![action],
            None => Seq::empty(),
        }),
{
    assert(walk_actions(dest, root, visits.drop_last()) + Seq::<ActionView>::empty()
        =~= walk_actions(dest, root, visits.drop_last()));
}

/// The last copy to `target` that a walk asks for is that of a visited file
/// whose place is `target`; there is none only where no visited file has
/// that place.
proof fn lemma_walk_copies(
    dest: PathView,
    root: PathView,
    visits: Seq<VisitView>,
    target: PathView,
)
    ensures
        match last_copy(walk_actions(dest, root, visits), target) {
            Some(origin) => visits.contains(VisitView::File(origin)) && mirrored(
                dest,
                root,
                origin,
            ) == target,
            None => forall|file: PathView| #[trigger]
                visits.contains(VisitView::File(file)) ==> mirrored(dest, root, file) != target,
        },
    decreases visits.len(),
{
    let actions = walk_actions(dest, root, visits);
    if visits.len() == 0 {
        assert(actions.len() == 0);
    } else {
        let rest = visits.drop_last();
        let before = walk_actions(dest, root, rest);
        lemma_walk_last(dest, root, visits);
        lemma_walk_copies(dest, root, rest, target);
        assert forall|file: PathView|
            visits.contains(VisitView::File(file)) <==> rest.contains(VisitView::File(file))
                || visits.last() == VisitView::File(file) by {
            lemma_contains_last(visits, VisitView::File(file));
        }
        match visit_action(dest, root, visits.last()) {
            Some(action) => {
                assert(actions.drop_last() =~= before);
                assert(actions.last() == action);
            },
            None => {
                assert(actions =~= before);
            },
        }
    }
}

/// A walk asks for a directory at `path` exactly where `path` is not empty
/// and is the place of a visited directory or an ancestor of that place.
proof fn lemma_walk_creates(dest: PathView, root: PathView, visits: Seq<VisitView>, path: PathView)
    ensures
        creates(walk_actions(dest, root, visits), path) <==> path.len() > 0 && exists|
            dir: PathView,
        | #[trigger]
            visits.contains(VisitView::Directory(dir)) && path.is_prefix_of(
                mirrored(dest, root, dir),
            ),
    decreases visits.len(),
{
    let actions = walk_actions(dest, root, visits);
    if visits.len() == 0 {
        assert(actions.len() == 0);
    } else {
        let rest = visits.drop_last();
        let before = walk_actions(dest, root, rest);
        lemma_walk_last(dest, root, visits);
        lemma_walk_creates(dest, root, rest, path);
        assert forall|dir: PathView|
            visits.contains(VisitView::Directory(dir)) <==> rest.contains(
                VisitView::Directory(dir),
            ) || visits.last() == VisitView::Directory(dir) by {
            lemma_contains_last(visits, VisitView::Directory(dir));
        }
        match visit_action(dest, root, visits.last()) {
            Some(action) => {
                assert(actions.drop_last() =~= before);
                assert(actions.last() == action);
            },
            None => {
                assert(actions =~= before);
            },
        }
        if creates(actions, path) {
            if creates(before, path) {
                let dir = choose|dir: PathView| #[trigger]
                    rest.contains(VisitView::Directory(dir)) && path.is_prefix_of(
                        mirrored(dest, root, dir),
                    );
                assert(visits.contains(VisitView::Directory(dir)));
            } else {
                let dir = visits.last()->Directory_0;
                assert(visits.contains(VisitView::Directory(dir)));
            }
        }
    }
}

/// Every visit of a regular walk is regular.
proof fn lemma_regular_visit(root: PathView, visits: Seq<VisitView>, visit: VisitView)
    requires
        walk_is_regular(root, visits),
        visits.contains(visit),
    ensures
        visit_is_regular(root, visit),
{
    let i = choose|i: int| 0 <= i < visits.len() && visits[i] == visit;
    assert(visit_is_regular(root, visits[i]));
}

/// Installing a directory mirrors what lies below it. After the actions of a
/// regular walk from `root` have been carried out on any tree:
///
/// - every visited file is found under the destination at the place that it
///   has under `root`, and holds the bytes of that file, whatever was at that
///   place before;
/// - every visited directory, an empty one too, is found at the place that it
///   has under `root`, as a directory unless something else was there before
///   (the empty path alone names no place to create);
/// - and nothing else has changed: every path of the tree is as it was
///   before, or is such a file, or is a new directory at or above the place
///   of a visited directory.
///
/// The places are the destination followed by what comes after `root`, so
/// the name of `root` itself is found nowhere among them.
pub proof fn directory_is_mirrored(
    layout: Layout,
    dest: PathView,
    root: PathView,
    visits: Seq<VisitView>,
)
    requires
        walk_is_regular(root, visits),
    ensures
        ({
            let after = perform_all(layout, walk_actions(dest, root, visits));
            &&& forall|file: PathView| #[trigger]
                visits.contains(VisitView::File(file)) ==> {
                    let place = dest + file.skip(root.len() as int);
                    after.dom().contains(place) && after[place] == (Node::File { origin: file })
                }
            &&& forall|dir: PathView| #[trigger]
                visits.contains(VisitView::Directory(dir)) ==> {
                    let place = dest + dir.skip(root.len() as int);
                    place.len() > 0 ==> {
                        &&& after.dom().contains(place)
                        &&& !visits.contains(VisitView::File(dir)) && (layout.dom().contains(
                            place,
                        ) ==> layout[place] is Directory) ==> after[place] is Directory
                    }
                }
            &&& forall|path: PathView| #[trigger]
                after.dom().contains(path) ==> {
                    ||| layout.dom().contains(path) && after[path] == layout[path]
                    ||| exists|file: PathView| #[trigger]
                        visits.contains(VisitView::File(file)) && path == dest + file.skip(
                            root.len() as int,
                        ) && after[path] == (Node::File { origin: file })
                    ||| after[path] is Directory && exists|dir: PathView| #[trigger]
                        visits.contains(VisitView::Directory(dir)) && path.is_prefix_of(
                            dest + dir.skip(root.len() as int),
                        )
                }
        }),
{
    let actions = walk_actions(dest, root, visits);
    let after = perform_all(layout, actions);
    lemma_perform_all_settles(layout, actions);
    assert forall|file: PathView| #[trigger] visits.contains(VisitView::File(file)) implies {
        let place = dest + file.skip(root.len() as int);
        after.dom().contains(place) && after[place] == (Node::File { origin: file })
    } by {
        let place = dest + file.skip(root.len() as int);
        lemma_regular_visit(root, visits, VisitView::File(file));
        mirrored_drops_root(dest, root, file);
        lemma_walk_copies(dest, root, visits, place);
        let origin = last_copy(actions, place)->Some_0;
        lemma_regular_visit(root, visits, VisitView::File(origin));
        mirrored_is_injective(dest, root, origin, file);
    }
    assert forall|dir: PathView| #[trigger] visits.contains(VisitView::Directory(dir)) implies {
        let place = dest + dir.skip(root.len() as int);
        place.len() > 0 ==> {
            &&& after.dom().contains(place)
            &&& !visits.contains(VisitView::File(dir)) && (layout.dom().contains(place)
                ==> layout[place] is Directory) ==> after[place] is Directory
        }
    } by {
        let place = dest + dir.skip(root.len() as int);
        lemma_regular_visit(root, visits, VisitView::Directory(dir));
        mirrored_drops_root(dest, root, dir);
        lemma_walk_copies(dest, root, visits, place);
        lemma_walk_creates(dest, root, visits, place);
        if place.len() > 0 {
            assert(place.is_prefix_of(mirrored(dest, root, dir)));
        }
        if last_copy(actions, place) is Some {
            let origin = last_copy(actions, place)->Some_0;
            lemma_regular_visit(root, visits, VisitView::File(origin));
            mirrored_is_injective(dest, root, origin, dir);
        }
    }
    assert forall|path: PathView| #[trigger] after.dom().contains(path) implies {
        ||| layout.dom().contains(path) && after[path] == layout[path]
        ||| exists|file: PathView| #[trigger]
            visits.contains(VisitView::File(file)) && path == dest + file.skip(root.len() as int)
                && after[path] == (Node::File { origin: file })
        ||| after[path] is Directory && exists|dir: PathView| #[trigger]
            visits.contains(VisitView::Directory(dir)) && path.is_prefix_of(
                dest + dir.skip(root.len() as int),
            )
    } by {
        lemma_walk_copies(dest, root, visits, path);
        lemma_walk_creates(dest, root, visits, path);
        match last_copy(actions, path) {
            Some(origin) => {
                lemma_regular_visit(root, visits, VisitView::File(origin));
                mirrored_drops_root(dest, root, origin);
            },
            None => {
                if !layout.dom().contains(path) {
                    let dir = choose|dir: PathView| #[trigger]
                        visits.contains(VisitView::Directory(dir)) && path.is_prefix_of(
                            mirrored(dest, root, dir),
                        );
                    lemma_regular_visit(root, visits, VisitView::Directory(dir));
                    mirrored_drops_root(dest, root, dir);
                }
            },
        }
    }
}

/// A file given as a source is flattened: it asks for exactly one copy, to
/// the top level of the destination under its bare name, whatever
/// directories lead to it; and carrying the copy out puts the file there,
/// whatever was there before, and changes nothing else.
pub proof fn file_is_flattened(layout: Layout, dest: PathView, path: PathView, name: Seq<u8>)
    requires
        file_name_of(path) == Some(name),
    ensures
        source_actions(dest, SourceView::File(path)) == seq![
            ActionView::CopyFile { source: path, target: dest.push(SegmentView::Name(name)) },
        ],
        perform_all(layout, source_actions(dest, SourceView::File(path))) == layout.insert(
            dest.push(SegmentView::Name(name)),
            Node::File { origin: path },
        ),
{
    let copy = ActionView::CopyFile { source: path, target: dest.push(SegmentView::Name(name)) };
    lemma_one_action(layout, copy, dest);
}

/// Whether a visit found a regular file.
pub open spec fn is_file(visit: VisitView) -> bool {
    visit is File
}

/// How many regular files a source holds: those that its walk visited, or
/// the one file that it is.
pub open spec fn files_in(source: SourceView) -> nat {
    match source {
        SourceView::Directory { root, visits } => visits.filter(
            |visit: VisitView| is_file(visit),
        ).len(),
        SourceView::File(path) => if file_name_of(path) is Some {
            1
        } else {
            0
        },
        SourceView::Other => 0,
    }
}

/// How many regular files the sources hold, all together.
pub open spec fn files_among(sources: Seq<SourceView>) -> nat
    decreases sources.len(),
{
    if sources.len() == 0 {
        0
    } else {
        files_among(sources.drop_last()) + files_in(sources.last())
    }
}

/// The copies among two runs of actions are those of the one and those of
/// the other.
proof fn lemma_copy_count_concat(first: Seq<ActionView>, second: Seq<ActionView>)
    ensures
        copy_count(first + second) == copy_count(first) + copy_count(second),
{
    Seq::filter_distributes_over_add(first, second, |action: ActionView| is_copy(action));
}

/// A walk asks for as many copies as it visited regular files.
proof fn lemma_walk_count(dest: PathView, root: PathView, visits: Seq<VisitView>)
    ensures
        copy_count(walk_actions(dest, root, visits)) == visits.filter(
            |visit: VisitView| is_file(visit),
        ).len(),
    decreases visits.len(),
{
    let files = |visit: VisitView| is_file(visit);
    if visits.len() == 0 {
        assert(walk_actions(dest, root, visits).len() == 0);
        visits.lemma_filter_len(files);
        walk_actions(dest, root, visits).lemma_filter_len(|action: ActionView| is_copy(action));
    } else {
        let rest = visits.drop_last();
        lemma_walk_last(dest, root, visits);
        lemma_walk_count(dest, root, rest);
        assert(rest.push(visits.last()) =~= visits);
        rest.lemma_filter_len_push(files, visits.last());
        let added = match visit_action(dest, root, visits.last()) {
            Some(action) => seq![action],
            None => Seq::empty(),
        };
        lemma_copy_count_concat(walk_actions(dest, root, rest), added);
        lemma_copy_count_one(added);
    }
}

/// The copies in a run of at most one action.
proof fn lemma_copy_count_one(actions: Seq<ActionView>)
    requires
        actions.len() <= 1,
    ensures
        copy_count(actions) == (if actions.len() == 1 && is_copy(actions[0]) {
            1nat
        } else {
            0nat
        }),
{
    let copies = |action: ActionView| is_copy(action);
    actions.lemma_filter_len(copies);
    if actions.len() == 1 {
        let empty = Seq::<ActionView>::empty();
        assert(empty.push(actions[0]) =~= actions);
        empty.lemma_filter_len(copies);
        empty.lemma_filter_len_push(copies, actions[0]);
    }
}

/// The actions of a list of sources are those of the list without its last
/// source, followed by those of the last source.
proof fn lemma_sources_last(dest: PathView, sources: Seq<SourceView>)
    requires
        sources.len() > 0,
    ensures
        sources_actions(dest, sources) == sources_actions(dest, sources.drop_last())
            + source_actions(dest, sources.last()),
{
    assert(sources.drop_last().push(sources.last()) =~= sources);
    sources.drop_last().lemma_flat_map_push(
        |source: SourceView| source_actions(dest, source),
        sources.last(),
    );
}

/// The count of an installation is the number of regular files that the
/// sources hold: one for each file that a walk visited and one for each
/// source that is a file. Directories, created or not, are never counted.
pub proof fn count_is_files_found(dest: PathView, dest_exists: bool, sources: Seq<SourceView>)
    ensures
        copy_count(install_actions(dest, dest_exists, sources)) == files_among(sources),
{
    lemma_copy_count_one(destination_actions(dest, dest_exists));
    lemma_copy_count_concat(destination_actions(dest, dest_exists), sources_actions(dest, sources));
    lemma_sources_count(dest, sources);
}

/// A list of sources asks for as many copies as it holds regular files.
proof fn lemma_sources_count(dest: PathView, sources: Seq<SourceView>)
    ensures
        copy_count(sources_actions(dest, sources)) == files_among(sources),
    decreases sources.len(),
{
    if sources.len() == 0 {
        assert(sources_actions(dest, sources).len() == 0);
        lemma_copy_count_one(sources_actions(dest, sources));
    } else {
        lemma_sources_last(dest, sources);
        lemma_sources_count(dest, sources.drop_last());
        lemma_copy_count_concat(
            sources_actions(dest, sources.drop_last()),
            source_actions(dest, sources.last()),
        );
        match sources.last() {
            SourceView::Directory { root, visits } => {
                lemma_walk_count(dest, root, visits);
            },
            SourceView::File(path) => {
                lemma_copy_count_one(source_actions(dest, sources.last()));
            },
            SourceView::Other => {
                lemma_copy_count_one(source_actions(dest, sources.last()));
            },
        }
    }
}

/// Whether `path` lies strictly below the directory `dest`.
pub open spec fn is_inside(path: PathView, dest: PathView) -> bool {
    dest.is_prefix_of(path) && path.len() > dest.len()
}

/// Every copy that regular sources ask for goes to a path inside the
/// destination.
proof fn lemma_copies_stay_inside(dest: PathView, sources: Seq<SourceView>, path: PathView)
    requires
        sources_are_regular(sources),
    ensures
        last_copy(sources_actions(dest, sources), path) is Some ==> is_inside(path, dest),
    decreases sources.len(),
{
    if sources.len() == 0 {
        assert(sources_actions(dest, sources) =~= Seq::<ActionView>::empty());
    } else {
        let rest = sources.drop_last();
        let last = source_actions(dest, sources.last());
        lemma_sources_last(dest, sources);
        assert(sources_are_regular(rest)) by {
            assert forall|i: int| 0 <= i < rest.len() implies source_is_regular(
                #[trigger] rest[i],
            ) by {
                assert(rest[i] == sources[i]);
            }
        }
        lemma_copies_stay_inside(dest, rest, path);
        lemma_last_copy_concat(sources_actions(dest, rest), last, path);
        if last_copy(last, path) is Some {
            assert(source_is_regular(sources[sources.len() - 1]));
            match sources.last() {
                SourceView::Directory { root, visits } => {
                    lemma_walk_copies(dest, root, visits, path);
                    let origin = last_copy(last, path)->Some_0;
                    lemma_regular_visit(root, visits, VisitView::File(origin));
                    mirrored_drops_root(dest, root, origin);
                },
                SourceView::File(file) => {
                    let name = file_name_of(file)->Some_0;
                    let place = dest.push(SegmentView::Name(name));
                    lemma_one_action(
                        Map::empty(),
                        ActionView::CopyFile { source: file, target: place },
                        path,
                    );
                    assert(place.subrange(0, dest.len() as int) =~= dest);
                },
                SourceView::Other => {},
            }
        }
    }
}

/// A destination that is not there is created first, with its missing
/// ancestors: the plan begins with that, and once regular sources are
/// installed the destination and every ancestor of it is found in the tree,
/// as it was where it was there before and as a directory where it was not.
pub proof fn destination_is_created(layout: Layout, dest: PathView, sources: Seq<SourceView>)
    requires
        sources_are_regular(sources),
    ensures
        install_actions(dest, false, sources).len() > 0,
        install_actions(dest, false, sources)[0] == (ActionView::CreateDir { target: dest }),
        ({
            let after = perform_all(layout, install_actions(dest, false, sources));
            forall|dir: PathView|
                dir.len() > 0 && #[trigger] dir.is_prefix_of(dest) ==> {
                    &&& after.dom().contains(dir)
                    &&& layout.dom().contains(dir) ==> after[dir] == layout[dir]
                    &&& !layout.dom().contains(dir) ==> after[dir] is Directory
                }
        }),
{
    let first = destination_actions(dest, false);
    let rest = sources_actions(dest, sources);
    let actions = install_actions(dest, false, sources);
    let after = perform_all(layout, actions);
    lemma_perform_all_settles(layout, actions);
    assert forall|dir: PathView| dir.len() > 0 && #[trigger] dir.is_prefix_of(dest) implies {
        &&& after.dom().contains(dir)
        &&& layout.dom().contains(dir) ==> after[dir] == layout[dir]
        &&& !layout.dom().contains(dir) ==> after[dir] is Directory
    } by {
        lemma_creates_concat(first, rest, dir);
        lemma_last_copy_concat(first, rest, dir);
        lemma_copies_stay_inside(dest, sources, dir);
        lemma_one_action(layout, ActionView::CreateDir { target: dest }, dir);
    }
}

/// Installing regular sources touches nothing but what lies inside the
/// destination: every path of the tree is still there afterwards, and every
/// path that is not inside the destination, the destination itself too, is
/// as it was. Inside it, a path to which no copy goes is as it was.
pub proof fn rest_is_untouched(
    layout: Layout,
    dest: PathView,
    dest_exists: bool,
    sources: Seq<SourceView>,
)
    requires
        sources_are_regular(sources),
    ensures
        ({
            let actions = install_actions(dest, dest_exists, sources);
            let after = perform_all(layout, actions);
            forall|path: PathView| #[trigger]
                layout.dom().contains(path) ==> {
                    &&& after.dom().contains(path)
                    &&& !is_inside(path, dest) ==> after[path] == layout[path]
                    &&& last_copy(actions, path) is None ==> after[path] == layout[path]
                }
        }),
{
    let first = destination_actions(dest, dest_exists);
    let rest = sources_actions(dest, sources);
    let actions = install_actions(dest, dest_exists, sources);
    lemma_perform_all_settles(layout, actions);
    assert forall|path: PathView| #[trigger] layout.dom().contains(path) implies {
        &&& perform_all(layout, actions).dom().contains(path)
        &&& !is_inside(path, dest) ==> perform_all(layout, actions)[path] == layout[path]
        &&& last_copy(actions, path) is None ==> perform_all(layout, actions)[path] == layout[path]
    } by {
        lemma_last_copy_concat(first, rest, path);
        lemma_copies_stay_inside(dest, sources, path);
        if !dest_exists {
            lemma_one_action(layout, ActionView::CreateDir { target: dest }, path);
        }
    }
}

/// Installing the same sources into the same destination a second time
/// changes nothing: the tree after the second installation is the tree
/// after the first. Each time the destination counts as being there exactly
/// where the tree holds it.
pub proof fn reinstalling_changes_nothing(layout: Layout, dest: PathView, sources: Seq<SourceView>)
    ensures
        ({
            let once = perform_all(
                layout,
                install_actions(dest, layout.dom().contains(dest), sources),
            );
            let twice = perform_all(
                once,
                install_actions(dest, once.dom().contains(dest), sources),
            );
            twice == once
        }),
{
    let there = layout.dom().contains(dest);
    let first = destination_actions(dest, there);
    let rest = sources_actions(dest, sources);
    let prepared = perform_all(layout, first);
    let once = perform_all(layout, first + rest);
    let again = destination_actions(dest, once.dom().contains(dest));
    lemma_perform_all_concat(layout, first, rest);
    lemma_perform_all_concat(once, again, rest);
    lemma_perform_all_settles(layout, first + rest);
    assert(perform_all(once, again) =~= once) by {
        if again.len() > 0 {
            let create = ActionView::CreateDir { target: dest };
            lemma_one_action(once, create, dest);
            assert(perform_all(once, again) == create_dir_all(once, dest));
            assert forall|dir: PathView| dir.len() > 0 && dir.is_prefix_of(dest) implies #[trigger]
                once.dom().contains(dir) by {
                lemma_creates_concat(first, rest, dir);
                lemma_one_action(layout, create, dir);
            }
        }
    }
    lemma_replay(prepared, rest);
}

} // verus!
