//! What carrying out actions leaves in a file tree.
//!
//! The tree is a mathematical model: a map from paths to what is found
//! there. It follows each action as it goes when it succeeds, and says
//! nothing of when one fails.

use crate::path::PathView;
use crate::plan::ActionView;
use vstd::prelude::*;

verus! {

/// What is found at one path.
#[verifier::ext_equal]
pub enum Node {
    /// A directory.
    Directory,
    /// A file that holds the bytes that the file `origin` held when the
    /// sources were recorded.
    File { origin: PathView },
}

/// A file tree: what is found at each path that exists.
pub type Layout = Map<PathView, Node>;

/// The tree after the directory `target` and all its missing ancestors have
/// been created. What was there before stays as it was.
pub open spec fn create_dir_all(layout: Layout, target: PathView) -> Layout {
    Map::new(
        |path: PathView|
            layout.dom().contains(path) || (path.len() > 0 && path.is_prefix_of(target)),
        |path: PathView|
            if layout.dom().contains(path) {
                layout[path]
            } else {
                Node::Directory
            },
    )
}

/// The tree after one action.
pub open spec fn perform(layout: Layout, action: ActionView) -> Layout {
    match action {
        ActionView::CreateDir { target } => create_dir_all(layout, target),
        ActionView::CopyFile { source, target } => layout.insert(
            target,
            Node::File { origin: source },
        ),
    }
}

/// The tree after the actions, carried out in order.
pub open spec fn perform_all(layout: Layout, actions: Seq<ActionView>) -> Layout
    decreases actions.len(),
{
    if actions.len() == 0 {
        layout
    } else {
        perform(perform_all(layout, actions.drop_last()), actions.last())
    }
}

/// The file that the last copy to `path` among the actions takes its bytes
/// from.
pub open spec fn last_copy(actions: Seq<ActionView>, path: PathView) -> Option<PathView>
    decreases actions.len(),
{
    if actions.len() == 0 {
        None
    } else {
        match actions.last() {
            ActionView::CopyFile { source, target } => if target == path {
                Some(source)
            } else {
                last_copy(actions.drop_last(), path)
            },
            ActionView::CreateDir { .. } => last_copy(actions.drop_last(), path),
        }
    }
}

/// Whether one of the actions creates a directory at `path`, be it as its
/// target or as an ancestor of its target.
pub open spec fn creates(actions: Seq<ActionView>, path: PathView) -> bool
    decreases actions.len(),
{
    if actions.len() == 0 {
        false
    } else {
        creates(actions.drop_last(), path) || match actions.last() {
            ActionView::CreateDir { target } => path.len() > 0 && path.is_prefix_of(target),
            ActionView::CopyFile { .. } => false,
        }
    }
}

/// The tree after the actions, said path by path: a path that a copy went to
/// holds the file of the last such copy; any other path that was there
/// before is as it was; and a path that was not there is a directory where
/// one of the actions created it.
pub open spec fn settled(layout: Layout, actions: Seq<ActionView>) -> Layout {
    Map::new(
        |path: PathView|
            layout.dom().contains(path) || last_copy(actions, path) is Some || creates(
                actions,
                path,
            ),
        |path: PathView|
            match last_copy(actions, path) {
                Some(origin) => Node::File { origin },
                None => if layout.dom().contains(path) {
                    layout[path]
                } else {
                    Node::Directory
                },
            },
    )
}

/// Carrying out the actions in order leaves the tree that [`settled`]
/// describes.
pub proof fn lemma_perform_all_settles(layout: Layout, actions: Seq<ActionView>)
    ensures
        perform_all(layout, actions) == settled(layout, actions),
    decreases actions.len(),
{
    if actions.len() == 0 {
        assert(perform_all(layout, actions) =~= settled(layout, actions));
    } else {
        lemma_perform_all_settles(layout, actions.drop_last());
        assert(perform_all(layout, actions) =~= settled(layout, actions));
    }
}

/// Carrying out the same actions once more changes nothing.
pub proof fn lemma_replay(layout: Layout, actions: Seq<ActionView>)
    ensures
        perform_all(perform_all(layout, actions), actions) == perform_all(layout, actions),
{
    let once = perform_all(layout, actions);
    lemma_perform_all_settles(layout, actions);
    lemma_perform_all_settles(once, actions);
    assert(settled(once, actions) =~= once);
}

/// Carrying out one run of actions and then another is carrying out the two
/// runs as one.
pub proof fn lemma_perform_all_concat(
    layout: Layout,
    first: Seq<ActionView>,
    second: Seq<ActionView>,
)
    ensures
        perform_all(layout, first + second) == perform_all(perform_all(layout, first), second),
    decreases second.len(),
{
    if second.len() == 0 {
        assert(first + second =~= first);
    } else {
        lemma_perform_all_concat(layout, first, second.drop_last());
        assert((first + second).drop_last() =~= first + second.drop_last());
        assert((first + second).last() == second.last());
    }
}

/// The last copy to a path among two runs of actions is the last one of the
/// second run, or else the last one of the first.
pub proof fn lemma_last_copy_concat(
    first: Seq<ActionView>,
    second: Seq<ActionView>,
    path: PathView,
)
    ensures
        last_copy(first + second, path) == match last_copy(second, path) {
            Some(origin) => Some(origin),
            None => last_copy(first, path),
        },
    decreases second.len(),
{
    if second.len() == 0 {
        assert(first + second =~= first);
    } else {
        lemma_last_copy_concat(first, second.drop_last(), path);
        assert((first + second).drop_last() =~= first + second.drop_last());
        assert((first + second).last() == second.last());
    }
}

/// Two runs of actions create a directory at a path where one of them does.
pub proof fn lemma_creates_concat(first: Seq<ActionView>, second: Seq<ActionView>, path: PathView)
    ensures
        creates(first + second, path) == (creates(first, path) || creates(second, path)),
    decreases second.len(),
{
    if second.len() == 0 {
        assert(first + second =~= first);
    } else {
        lemma_creates_concat(first, second.drop_last(), path);
        assert((first + second).drop_last() =~= first + second.drop_last());
        assert((first + second).last() == second.last());
    }
}

/// A run of one action: the tree after it, the copy that it makes and the
/// directories that it creates are those of the action.
pub proof fn lemma_one_action(layout: Layout, action: ActionView, path: PathView)
    ensures
        perform_all(layout, seq![action]) == perform(layout, action),
        last_copy(seq![action], path) == match action {
            ActionView::CopyFile { source, target } => if target == path {
                Some(source)
            } else {
                None
            },
            ActionView::CreateDir { .. } => None,
        },
        creates(seq![action], path) == match action {
            ActionView::CreateDir { target } => path.len() > 0 && path.is_prefix_of(target),
            ActionView::CopyFile { .. } => false,
        },
{
    let one = seq![action];
    assert(one.drop_last().len() == 0);
    assert(one.last() == action);
    assert(perform_all(layout, one.drop_last()) == layout);
    assert(last_copy(one.drop_last(), path) is None);
    assert(!creates(one.drop_last(), path));
}

} // verus!
