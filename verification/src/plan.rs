//! From a record of the sources to the actions that install them.

use crate::path::{file_name_of, joined, stripped, FilePath, PathView, SegmentView};
use vstd::prelude::*;

verus! {

/// What a walk below a directory found at one step.
#[derive(Clone, Debug, PartialEq, Eq)]
pub enum Visit {
    /// A directory, with its path as the walk gave it.
    Directory(FilePath),
    /// A regular file, with its path as the walk gave it.
    File(FilePath),
    /// Anything else: an entry that could not be read, a dangling link, a
    /// device.
    Other,
}

/// The mathematical value of a [`Visit`].
#[verifier::ext_equal]
pub enum VisitView {
    Directory(PathView),
    File(PathView),
    Other,
}

impl View for Visit {
    type V = VisitView;

    open spec fn view(&self) -> VisitView {
        match self {
            Visit::Directory(path) => VisitView::Directory(path@),
            Visit::File(path) => VisitView::File(path@),
            Visit::Other => VisitView::Other,
        }
    }
}

/// The values of a run of visits.
pub open spec fn visit_views(visits: Seq<Visit>) -> Seq<VisitView> {
    visits.map_values(|visit: Visit| visit@)
}

/// One source, as the caller found it.
#[derive(Clone, Debug, PartialEq, Eq)]
pub enum Source {
    /// A directory, with every step of a walk that starts at `root`.
    Directory { root: FilePath, visits: Vec<Visit> },
    /// A regular file.
    File(FilePath),
    /// A path that names neither a directory nor a regular file.
    Other,
}

/// The mathematical value of a [`Source`].
#[verifier::ext_equal]
pub enum SourceView {
    Directory { root: PathView, visits: Seq<VisitView> },
    File(PathView),
    Other,
}

impl View for Source {
    type V = SourceView;

    open spec fn view(&self) -> SourceView {
        match self {
            Source::Directory { root, visits } => SourceView::Directory {
                root: root@,
                visits: visit_views(visits@),
            },
            Source::File(path) => SourceView::File(path@),
            Source::Other => SourceView::Other,
        }
    }
}

/// The values of a run of sources.
pub open spec fn source_views(sources: Seq<Source>) -> Seq<SourceView> {
    sources.map_values(|source: Source| source@)
}

/// One thing for the caller to do.
#[derive(Clone, Debug, PartialEq, Eq)]
pub enum Action {
    /// Create the directory `target` and every ancestor of it that is
    /// missing; a directory that is already there is left as it is.
    CreateDir { target: FilePath },
    /// Copy the bytes of the file `source` to `target`, replacing a file that
    /// is already there.
    CopyFile { source: FilePath, target: FilePath },
}

/// The mathematical value of an [`Action`].
#[verifier::ext_equal]
pub enum ActionView {
    CreateDir { target: PathView },
    CopyFile { source: PathView, target: PathView },
}

impl View for Action {
    type V = ActionView;

    open spec fn view(&self) -> ActionView {
        match self {
            Action::CreateDir { target } => ActionView::CreateDir { target: target@ },
            Action::CopyFile { source, target } => ActionView::CopyFile {
                source: source@,
                target: target@,
            },
        }
    }
}

/// The values of a run of actions.
pub open spec fn action_views(actions: Seq<Action>) -> Seq<ActionView> {
    actions.map_values(|action: Action| action@)
}

/// `path` as seen from `root`: without the leading `root` where it begins
/// with it, and unchanged where it does not.
pub open spec fn relative_to(path: PathView, root: PathView) -> PathView {
    match stripped(path, root) {
        Some(rest) => rest,
        None => path,
    }
}

/// Where under `dest` the entry at `path`, found by a walk from `root`, goes.
pub open spec fn mirrored(dest: PathView, root: PathView, path: PathView) -> PathView {
    joined(dest, relative_to(path, root))
}

/// Whether `path` begins neither with a prefix nor at the root.
pub open spec fn is_relative(path: PathView) -> bool {
    path.len() == 0 || !(path[0] is Prefix || path[0] is Root)
}

/// Whether `path` is `root` followed by a relative path.
pub open spec fn is_below(path: PathView, root: PathView) -> bool {
    root.is_prefix_of(path) && is_relative(path.skip(root.len() as int))
}

/// Whether a visit is one that a walk from the directory `root` can make: a
/// directory at or below `root`, a file strictly below it, or something else.
pub open spec fn visit_is_regular(root: PathView, visit: VisitView) -> bool {
    match visit {
        VisitView::Directory(path) => is_below(path, root),
        VisitView::File(path) => is_below(path, root) && path.len() > root.len(),
        VisitView::Other => true,
    }
}

/// Whether every visit is one that a walk from the directory `root` can make.
pub open spec fn walk_is_regular(root: PathView, visits: Seq<VisitView>) -> bool {
    forall|i: int| 0 <= i < visits.len() ==> visit_is_regular(root, #[trigger] visits[i])
}

/// Whether a source is one that a caller can find: any file, anything else,
/// or a directory with a walk that stays below it.
pub open spec fn source_is_regular(source: SourceView) -> bool {
    match source {
        SourceView::Directory { root, visits } => walk_is_regular(root, visits),
        SourceView::File(_) => true,
        SourceView::Other => true,
    }
}

/// Whether every source is one that a caller can find.
pub open spec fn sources_are_regular(sources: Seq<SourceView>) -> bool {
    forall|i: int| 0 <= i < sources.len() ==> source_is_regular(#[trigger] sources[i])
}

/// What one visit of a walk from `root` asks for: a directory is created at
/// its mirrored place, a file is copied to its mirrored place, and anything
/// else is passed over.
pub open spec fn visit_action(dest: PathView, root: PathView, visit: VisitView) -> Option<
    ActionView,
> {
    match visit {
        VisitView::Directory(path) => Some(
            ActionView::CreateDir { target: mirrored(dest, root, path) },
        ),
        VisitView::File(path) => Some(
            ActionView::CopyFile { source: path, target: mirrored(dest, root, path) },
        ),
        VisitView::Other => None,
    }
}

/// What a walk from `root` asks for: the actions of its visits, in order.
pub open spec fn walk_actions(dest: PathView, root: PathView, visits: Seq<VisitView>) -> Seq<
    ActionView,
> {
    visits.filter_map(|visit: VisitView| visit_action(dest, root, visit))
}

/// What a source that is a file asks for: a copy to the top level of `dest`
/// under the file's bare name. A path without a name asks for nothing.
pub open spec fn file_action(dest: PathView, path: PathView) -> Option<ActionView> {
    match file_name_of(path) {
        Some(name) => Some(
            ActionView::CopyFile { source: path, target: dest.push(SegmentView::Name(name)) },
        ),
        None => None,
    }
}

/// What one source asks for.
pub open spec fn source_actions(dest: PathView, source: SourceView) -> Seq<ActionView> {
    match source {
        SourceView::Directory { root, visits } => walk_actions(dest, root, visits),
        SourceView::File(path) => match file_action(dest, path) {
            Some(action) => seq![action],
            None => Seq::empty(),
        },
        SourceView::Other => Seq::empty(),
    }
}

/// What a list of sources asks for: the actions of each source in turn.
pub open spec fn sources_actions(dest: PathView, sources: Seq<SourceView>) -> Seq<ActionView> {
    sources.flat_map(|source: SourceView| source_actions(dest, source))
}

/// What the destination itself asks for: to be created, with its missing
/// ancestors, where it is not there yet.
pub open spec fn destination_actions(dest: PathView, dest_exists: bool) -> Seq<ActionView> {
    if dest_exists {
        Seq::empty()
    } else {
        seq![ActionView::CreateDir { target: dest }]
    }
}

/// What an installation asks for: first the destination is seen to, then
/// each source is served in turn.
pub open spec fn install_actions(
    dest: PathView,
    dest_exists: bool,
    sources: Seq<SourceView>,
) -> Seq<ActionView> {
    destination_actions(dest, dest_exists) + sources_actions(dest, sources)
}

/// Whether an action copies a file.
pub open spec fn is_copy(action: ActionView) -> bool {
    action is CopyFile
}

/// How many of the actions copy a file.
pub open spec fn copy_count(actions: Seq<ActionView>) -> nat {
    actions.filter(|action: ActionView| is_copy(action)).len()
}

/// The actions of an installation, in the order in which they are to be
/// carried out, with the number of files that they copy.
#[derive(Debug, PartialEq, Eq)]
pub struct Plan {
    actions: Vec<Action>,
    installed: usize,
}

impl View for Plan {
    type V = Seq<ActionView>;

    closed spec fn view(&self) -> Seq<ActionView> {
        action_views(self.actions@)
    }
}

/// One more action adds one to the count where it copies a file, and the
/// count never exceeds the number of actions.
proof fn lemma_copy_count_push(actions: Seq<ActionView>, action: ActionView)
    ensures
        copy_count(actions.push(action)) == copy_count(actions) + (if is_copy(action) {
            1nat
        } else {
            0nat
        }),
        copy_count(actions) <= actions.len(),
{
    let counts = |action: ActionView| is_copy(action);
    actions.lemma_filter_len(counts);
    actions.lemma_filter_len_push(counts, action);
}

/// The actions of a walk that is one visit longer.
proof fn lemma_walk_step(dest: PathView, root: PathView, visits: Seq<VisitView>, i: int)
    requires
        0 <= i < visits.len(),
    ensures
        walk_actions(dest, root, visits.take(i + 1)) == walk_actions(dest, root, visits.take(i))
            + (match visit_action(dest, root, visits[i]) {
            Some(action) => seq![action],
            None => Seq::empty(),
        }),
{
    visits.lemma_filter_map_take_succ(|visit: VisitView| visit_action(dest, root, visit), i);
}

/// The actions of a list of sources that is one source longer.
proof fn lemma_sources_step(dest: PathView, sources: Seq<SourceView>, i: int)
    requires
        0 <= i < sources.len(),
    ensures
        sources_actions(dest, sources.take(i + 1)) == sources_actions(dest, sources.take(i))
            + source_actions(dest, sources[i]),
{
    sources.lemma_flat_map_take_append(|source: SourceView| source_actions(dest, source), i);
}

/// Where under `dest` the entry at `path`, found by a walk from `root`, goes.
pub fn mirror(dest: &FilePath, root: &FilePath, path: &FilePath) -> (target: FilePath)
    ensures
        target@ == mirrored(dest@, root@, path@),
{
    match path.strip_prefix(root) {
        Some(rest) => dest.join(&rest),
        None => dest.join(path),
    }
}

impl Visit {
    /// What this visit of a walk from `root` asks for.
    pub fn action(&self, dest: &FilePath, root: &FilePath) -> (action: Option<Action>)
        ensures
            match action {
                Some(action) => visit_action(dest@, root@, self@) == Some(action@),
                None => visit_action(dest@, root@, self@) is None,
            },
    {
        match self {
            Visit::Directory(path) => Some(Action::CreateDir { target: mirror(dest, root, path) }),
            Visit::File(path) => Some(
                Action::CopyFile { source: path.duplicate(), target: mirror(dest, root, path) },
            ),
            Visit::Other => None,
        }
    }
}

impl Plan {
    #[verifier::type_invariant]
    spec fn counted(self) -> bool {
        self.installed == copy_count(action_views(self.actions@))
    }

    /// A plan without actions.
    fn new() -> (plan: Plan)
        ensures
            plan@ == Seq::<ActionView>::empty(),
    {
        Plan { actions: Vec::new(), installed: 0 }
    }

    /// The plan with `action` at its end.
    fn with(self, action: Action) -> (plan: Plan)
        ensures
            plan@ == self@.push(action@),
    {
        proof {
            use_type_invariant(&self);
        }
        let Plan { mut actions, installed } = self;
        let ghost before = action_views(actions@);
        let ghost added = action@;
        let copies = match &action {
            Action::CopyFile { .. } => true,
            Action::CreateDir { .. } => false,
        };
        actions.push(action);
        proof {
            assert(action_views(actions@) == before.push(added));
            lemma_copy_count_push(before, added);
            assert(installed < actions.len());
        }
        Plan { actions, installed: if copies { installed + 1 } else { installed } }
    }

    /// The number that [`Plan::installed`] returns.
    pub closed spec fn installed_count(&self) -> nat {
        self.installed as nat
    }

    /// The actions, in the order in which they are to be carried out.
    pub fn actions(&self) -> (actions: &Vec<Action>)
        ensures
            action_views(actions@) == self@,
    {
        &self.actions
    }

    /// The number of files that the plan copies.
    pub fn installed(&self) -> (count: usize)
        ensures
            count == self.installed_count(),
            count == copy_count(self@),
    {
        proof {
            use_type_invariant(self);
        }
        self.installed
    }
}

/// `plan` followed by what a walk from `root` asks for.
fn walk(plan: Plan, dest: &FilePath, root: &FilePath, visits: &Vec<Visit>) -> (longer: Plan)
    ensures
        longer@ == plan@ + walk_actions(dest@, root@, visit_views(visits@)),
{
    let ghost seen = visit_views(visits@);
    let mut longer = plan;
    let mut i: usize = 0;
    while i < visits.len()
        invariant
            i <= visits.len(),
            seen == visit_views(visits@),
            longer@ == plan@ + walk_actions(dest@, root@, seen.take(i as int)),
        decreases visits.len() - i,
    {
        proof {
            lemma_walk_step(dest@, root@, seen, i as int);
        }
        match visits[i].action(dest, root) {
            Some(action) => {
                longer = longer.with(action);
            },
            None => {},
        }
        i += 1;
    }
    assert(seen.take(visits.len() as int) == seen);
    longer
}

/// `plan` followed by what `source` asks for.
fn serve(plan: Plan, dest: &FilePath, source: &Source) -> (longer: Plan)
    ensures
        longer@ == plan@ + source_actions(dest@, source@),
{
    assert(plan@ + Seq::<ActionView>::empty() == plan@);
    match source {
        Source::Directory { root, visits } => walk(plan, dest, root, visits),
        Source::File(path) => match path.file_name() {
            Some(name) => {
                let copy = Action::CopyFile { source: path.duplicate(), target: dest.child(name) };
                assert(plan@ + seq![copy@] == plan@.push(copy@));
                plan.with(copy)
            },
            None => plan,
        },
        Source::Other => plan,
    }
}

/// Plans the installation of `sources` into the directory `dest`.
///
/// `dest_exists` says whether `dest` is there already. Where it is not, the
/// plan begins by creating it. The sources are then served in the order
/// given. A directory has each directory below it created, and each file
/// below it copied, at the place under `dest` that mirrors its place under the
/// directory; what the walk could not read, and what is neither a directory
/// nor a regular file, is passed over. A file is copied to the top level of
/// `dest` under its bare name. A source that is neither is passed over.
///
/// A later action on the same target replaces the effect of an earlier one.
/// The caller is to carry out the actions in order and to stop at the first
/// that fails; where none fails, `installed` is the number of files copied.
pub fn install_files(sources: &[Source], dest: &FilePath, dest_exists: bool) -> (plan: Plan)
    ensures
        plan@ == install_actions(dest@, dest_exists, source_views(sources@)),
        plan.installed_count() == copy_count(plan@),
{
    let ghost given = source_views(sources@);
    let mut plan = Plan::new();
    if !dest_exists {
        plan = plan.with(Action::CreateDir { target: dest.duplicate() });
    }
    assert(plan@ == destination_actions(dest@, dest_exists));
    let mut i: usize = 0;
    while i < sources.len()
        invariant
            i <= sources.len(),
            given == source_views(sources@),
            plan@ == destination_actions(dest@, dest_exists) + sources_actions(
                dest@,
                given.take(i as int),
            ),
        decreases sources.len() - i,
    {
        proof {
            lemma_sources_step(dest@, given, i as int);
        }
        plan = serve(plan, dest, &sources[i]);
        i += 1;
    }
    proof {
        assert(given.take(sources.len() as int) == given);
        use_type_invariant(&plan);
    }
    plan
}

} // verus!
