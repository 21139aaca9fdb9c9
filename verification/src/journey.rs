//! The walk as a whole: which files a run shows, and in what order,
//! given what is on disk.
//!
//! The walk itself goes step by step and never sees the disk. Here the
//! disk is a value, the caller answers every request from it, and the
//! steps are put together: what comes out is each entry in its turn, a
//! directory's children, in their order, in the place of the directory.

use vstd::prelude::*;
use crate::exclude::excludes;
use crate::state::FileCatView;
use crate::traverse::{
    settle,
    stacked,
    stacked_top,
    EntryKind,
    EntryView,
    EventView,
    TraversalView,
    WaitingView,
};

verus! {

/// What stands at a path, as the caller finds it.
pub enum NodeView {
    /// A file with this content.
    File(Seq<u8>),
    /// A file that cannot be read, with the reason.
    Unreadable(Seq<char>),
    /// A directory with these children, by their paths, and these
    /// failures while it was listed.
    Dir(Seq<Seq<char>>, Seq<Seq<char>>),
    /// A directory that cannot be listed, with the reason.
    Unlistable(Seq<char>),
    /// Nothing, or nothing that can be looked at.
    Nothing,
}

/// What is on disk: what stands at each path.
pub type DiskView = Map<Seq<char>, NodeView>;

/// A file that was shown: its path and its content.
pub type Shown = (Seq<char>, Seq<u8>);

/// What stands at `path`.
pub open spec fn node_at(disk: DiskView, path: Seq<char>) -> NodeView {
    if disk.contains_key(path) {
        disk[path]
    } else {
        NodeView::Nothing
    }
}

/// What kind of thing the caller takes a node for.
pub open spec fn kind_of(node: NodeView) -> EntryKind {
    match node {
        NodeView::File(_) => EntryKind::File,
        NodeView::Unreadable(_) => EntryKind::File,
        NodeView::Dir(_, _) => EntryKind::Directory,
        NodeView::Unlistable(_) => EntryKind::Directory,
        NodeView::Nothing => EntryKind::Other,
    }
}

/// The caller's answer, from the disk, to what the walk waits for.
pub open spec fn answer(disk: DiskView, waiting: WaitingView) -> EventView {
    match waiting {
        WaitingView::Kind(e) => EventView::Kind(kind_of(node_at(disk, e.path))),
        WaitingView::Content(p) => match node_at(disk, p) {
            NodeView::File(bytes) => EventView::Content(bytes),
            NodeView::Unreadable(reason) => EventView::ReadFailed(reason),
            _ => EventView::ReadFailed(Seq::<char>::empty()),
        },
        WaitingView::Children(p) => match node_at(disk, p) {
            NodeView::Dir(children, failures) => EventView::Children(children, failures),
            NodeView::Unlistable(reason) => EventView::ListFailed(reason),
            _ => EventView::ListFailed(Seq::<char>::empty()),
        },
        WaitingView::Nothing => EventView::Kind(EntryKind::Other),
    }
}

/// What a run of steps gives: the files shown, in order, and the walk at
/// the end.
pub struct Journey {
    pub shown: Seq<Shown>,
    pub end: TraversalView,
}

/// `first` shown before everything of `rest`.
pub open spec fn and_then(first: Seq<Shown>, rest: Journey) -> Journey {
    Journey { shown: first + rest.shown, end: rest.end }
}

/// The walk taken on from `walk` for at most `fuel` steps, every request
/// answered from the disk, until it is over.
pub open spec fn journey(walk: TraversalView, disk: DiskView, fuel: nat) -> Journey
    decreases fuel,
{
    if fuel == 0 || walk.waiting is Nothing {
        Journey { shown: Seq::<Shown>::empty(), end: walk }
    } else {
        let effect = walk.react(answer(disk, walk.waiting));
        and_then(
            match effect.shown {
                Some(file) => seq![file],
                None => Seq::<Shown>::empty(),
            },
            journey(effect.next, disk, (fuel - 1) as nat),
        )
    }
}

/// The files shown for the entry at `path`, which is not excluded: the
/// file itself, or what is shown for the children of the directory, down
/// to `depth` directories deep.
pub open spec fn enter(
    disk: DiskView,
    rules: Seq<Seq<char>>,
    recursive: bool,
    path: Seq<char>,
    depth: nat,
) -> Seq<Shown>
    decreases depth, 0nat,
{
    match node_at(disk, path) {
        NodeView::File(bytes) => seq![(path, bytes)],
        NodeView::Dir(children, _) => if recursive && depth > 0 {
            visit_all(disk, rules, recursive, children, (depth - 1) as nat)
        } else {
            Seq::<Shown>::empty()
        },
        _ => Seq::<Shown>::empty(),
    }
}

/// The files shown for the entry at `path`: nothing where it is
/// excluded.
pub open spec fn visit(
    disk: DiskView,
    rules: Seq<Seq<char>>,
    recursive: bool,
    path: Seq<char>,
    depth: nat,
) -> Seq<Shown>
    decreases depth, 1nat,
{
    if excludes(rules, path) {
        Seq::<Shown>::empty()
    } else {
        enter(disk, rules, recursive, path, depth)
    }
}

/// The files shown for the entries at `paths`, one entry after the
/// other.
pub open spec fn visit_all(
    disk: DiskView,
    rules: Seq<Seq<char>>,
    recursive: bool,
    paths: Seq<Seq<char>>,
    depth: nat,
) -> Seq<Shown>
    decreases depth, paths.len() + 2,
{
    if paths.len() == 0 {
        Seq::<Shown>::empty()
    } else {
        visit(disk, rules, recursive, paths[0], depth) + visit_all(
            disk,
            rules,
            recursive,
            paths.skip(1),
            depth,
        )
    }
}

/// How many steps the walk takes for the entry at `path`, which is not
/// excluded.
pub open spec fn steps_in(
    disk: DiskView,
    rules: Seq<Seq<char>>,
    recursive: bool,
    path: Seq<char>,
    depth: nat,
) -> nat
    decreases depth, 0nat,
{
    match node_at(disk, path) {
        NodeView::File(_) => 2,
        NodeView::Unreadable(_) => 2,
        NodeView::Dir(children, _) => if !recursive {
            1
        } else if depth > 0 {
            2 + steps_all(disk, rules, recursive, children, (depth - 1) as nat)
        } else {
            2
        },
        NodeView::Unlistable(_) => if recursive {
            2
        } else {
            1
        },
        NodeView::Nothing => 1,
    }
}

/// How many steps the walk takes for the entries at `paths`.
pub open spec fn steps_all(
    disk: DiskView,
    rules: Seq<Seq<char>>,
    recursive: bool,
    paths: Seq<Seq<char>>,
    depth: nat,
) -> nat
    decreases depth, paths.len() + 2,
{
    if paths.len() == 0 {
        0
    } else {
        (if excludes(rules, paths[0]) {
            0nat
        } else {
            steps_in(disk, rules, recursive, paths[0], depth)
        }) + steps_all(disk, rules, recursive, paths.skip(1), depth)
    }
}

/// Whether what lies below the entry at `path` is at most `depth`
/// directories deep, as far as the walk goes.
pub open spec fn fits(
    disk: DiskView,
    rules: Seq<Seq<char>>,
    recursive: bool,
    path: Seq<char>,
    depth: nat,
) -> bool
    decreases depth, 0nat,
{
    match node_at(disk, path) {
        NodeView::Dir(children, _) => !recursive || (depth > 0 && fits_all(
            disk,
            rules,
            recursive,
            children,
            (depth - 1) as nat,
        )),
        _ => true,
    }
}

/// Whether what lies below the entries at `paths` is at most `depth`
/// directories deep, as far as the walk goes.
pub open spec fn fits_all(
    disk: DiskView,
    rules: Seq<Seq<char>>,
    recursive: bool,
    paths: Seq<Seq<char>>,
    depth: nat,
) -> bool
    decreases depth, paths.len() + 2,
{
    paths.len() == 0 || ((excludes(rules, paths[0]) || fits(
        disk,
        rules,
        recursive,
        paths[0],
        depth,
    )) && fits_all(disk, rules, recursive, paths.skip(1), depth))
}

/// The walk with `shown` more files counted, where files are counted.
pub open spec fn counted(walk: TraversalView, shown: nat) -> TraversalView {
    TraversalView {
        viewer: FileCatView {
            file_count: walk.viewer.file_count + if walk.viewer.counter {
                shown
            } else {
                0nat
            },
            ..walk.viewer
        },
        ..walk
    }
}

/// The walk with the given entries still to be visited and nothing
/// awaited.
pub open spec fn at_rest(walk: TraversalView, pending: Seq<EntryView>) -> TraversalView {
    TraversalView { pending, waiting: WaitingView::Nothing, ..walk }
}

/// The entries at `paths` as they stand to be visited, the first one
/// last.
pub open spec fn stack_of(paths: Seq<Seq<char>>, top_level: bool) -> Seq<EntryView> {
    Seq::new(paths.len(), |i: int| EntryView { path: paths[paths.len() - 1 - i], top_level })
}

/// Counting in two goes is counting the sum.
pub proof fn lemma_counted_twice(walk: TraversalView, a: nat, b: nat)
    ensures
        counted(counted(walk, a), b) == counted(walk, a + b),
        counted(walk, 0) == walk,
        counted(walk, a).proceed() == counted(walk.proceed(), a),
        counted(walk, a).pending == walk.pending,
        counted(walk, a).waiting == walk.waiting,
        counted(walk, a).rules == walk.rules,
        counted(walk, a).recursive == walk.recursive,
{
}

/// From an entry that the walk looks at, the walk shows what is to be
/// shown for that entry, and then goes on with whatever stood behind it.
pub proof fn lemma_entry(walk: TraversalView, disk: DiskView, depth: nat, fuel: nat)
    requires
        walk.waiting is Kind,
        fits(disk, walk.rules, walk.recursive, walk.waiting->Kind_0.path, depth),
        fuel >= steps_in(disk, walk.rules, walk.recursive, walk.waiting->Kind_0.path, depth),
    ensures
        journey(walk, disk, fuel) == and_then(
            enter(disk, walk.rules, walk.recursive, walk.waiting->Kind_0.path, depth),
            journey(
                counted(
                    at_rest(walk, walk.pending),
                    enter(disk, walk.rules, walk.recursive, walk.waiting->Kind_0.path, depth).len(),
                ).proceed(),
                disk,
                (fuel - steps_in(
                    disk,
                    walk.rules,
                    walk.recursive,
                    walk.waiting->Kind_0.path,
                    depth,
                )) as nat,
            ),
        ),
    decreases depth, 0nat,
{
    let path = walk.waiting->Kind_0.path;
    let node = node_at(disk, path);
    let rested = at_rest(walk, walk.pending);
    let first = walk.react(answer(disk, walk.waiting));
    let none = Seq::<Shown>::empty();
    let shown = enter(disk, walk.rules, walk.recursive, path, depth);
    let steps = steps_in(disk, walk.rules, walk.recursive, path, depth);
    lemma_counted_twice(rested, shown.len(), 0);
    assert(walk.proceed() == rested.proceed());
    assert(first.shown is None);
    let after_first = journey(first.next, disk, (fuel - 1) as nat);
    assert(journey(walk, disk, fuel) == and_then(none, after_first));
    assert(none + after_first.shown =~= after_first.shown);
    if first.next.waiting is Content || first.next.waiting is Children {
        let second = first.next.react(answer(disk, first.next.waiting));
        let after_second = journey(second.next, disk, (fuel - 2) as nat);
        match node {
            NodeView::File(bytes) => {
                assert(second.shown == Some((path, bytes)));
                assert(second.next == counted(rested, 1).proceed());
                assert(none + (seq![(path, bytes)] + after_second.shown) =~= shown
                    + after_second.shown);
            },
            NodeView::Dir(children, failures) => {
                let grown = at_rest(walk, walk.pending + stacked(children));
                assert(second.shown is None);
                assert(second.next == grown.proceed());
                assert(stacked(children) =~= stack_of(children, false));
                lemma_stack(
                    grown,
                    disk,
                    walk.pending,
                    children,
                    false,
                    (depth - 1) as nat,
                    (fuel - 2) as nat,
                );
                assert(at_rest(grown, walk.pending) == rested);
                assert(none + (none + shown) =~= shown);
                assert(after_second.shown =~= shown + journey(
                    counted(rested, shown.len()).proceed(),
                    disk,
                    (fuel - steps) as nat,
                ).shown);
                assert(none + after_second.shown =~= after_second.shown);
            },
            _ => {
                assert(second.shown is None);
                assert(second.next == rested.proceed());
                assert(shown =~= none);
                assert(none + after_second.shown =~= after_second.shown);
            },
        }
    } else {
        assert(first.next == rested.proceed());
        assert(shown =~= none);
    }
}

/// Showing in two goes is showing the one and then the other.
pub proof fn lemma_and_then(first: Seq<Shown>, second: Seq<Shown>, rest: Journey)
    ensures
        and_then(first, and_then(second, rest)) == and_then(first + second, rest),
        and_then(Seq::<Shown>::empty(), rest) == rest,
{
    assert(first + (second + rest.shown) =~= (first + second) + rest.shown);
    assert(Seq::<Shown>::empty() + rest.shown =~= rest.shown);
}

/// With the first of the entries on top, the walk turns to it unless it
/// is excluded, and the others stand below it.
pub proof fn lemma_top_of_stack(
    walk: TraversalView,
    behind: Seq<EntryView>,
    paths: Seq<Seq<char>>,
    top_level: bool,
)
    requires
        walk.waiting is Nothing,
        walk.pending == behind + stack_of(paths, top_level),
        paths.len() > 0,
    ensures
        excludes(walk.rules, paths[0]) ==> walk.proceed() == at_rest(
            walk,
            behind + stack_of(paths.skip(1), top_level),
        ).proceed(),
        !excludes(walk.rules, paths[0]) ==> walk.proceed() == (TraversalView {
            pending: behind + stack_of(paths.skip(1), top_level),
            waiting: WaitingView::Kind(EntryView { path: paths[0], top_level }),
            ..walk
        }),
{
    let entry = EntryView { path: paths[0], top_level };
    let below = behind + stack_of(paths.skip(1), top_level);
    assert(walk.pending.last() == entry);
    assert(walk.pending.drop_last() =~= below);
    if !excludes(walk.rules, paths[0]) {
        assert(settle(walk.rules, walk.pending) == walk.pending);
    }
}

/// From entries that stand to be visited, the walk shows what is to be
/// shown for each in its turn, and then goes on with whatever stood
/// behind them.
pub proof fn lemma_stack(
    walk: TraversalView,
    disk: DiskView,
    behind: Seq<EntryView>,
    paths: Seq<Seq<char>>,
    top_level: bool,
    depth: nat,
    fuel: nat,
)
    requires
        walk.waiting is Nothing,
        walk.pending == behind + stack_of(paths, top_level),
        fits_all(disk, walk.rules, walk.recursive, paths, depth),
        fuel >= steps_all(disk, walk.rules, walk.recursive, paths, depth),
    ensures
        journey(walk.proceed(), disk, fuel) == and_then(
            visit_all(disk, walk.rules, walk.recursive, paths, depth),
            journey(
                counted(
                    at_rest(walk, behind),
                    visit_all(disk, walk.rules, walk.recursive, paths, depth).len(),
                ).proceed(),
                disk,
                (fuel - steps_all(disk, walk.rules, walk.recursive, paths, depth)) as nat,
            ),
        ),
    decreases depth, paths.len() + 2,
{
    let none = Seq::<Shown>::empty();
    let all = visit_all(disk, walk.rules, walk.recursive, paths, depth);
    let all_steps = steps_all(disk, walk.rules, walk.recursive, paths, depth);
    let base = at_rest(walk, behind);
    if paths.len() == 0 {
        assert(base == walk) by {
            assert(walk.pending =~= behind);
        }
        lemma_counted_twice(walk, 0, 0);
        lemma_and_then(none, none, journey(walk.proceed(), disk, fuel));
    } else {
        let head = paths[0];
        let tail = paths.skip(1);
        let below = behind + stack_of(tail, top_level);
        let later = visit_all(disk, walk.rules, walk.recursive, tail, depth);
        let later_steps = steps_all(disk, walk.rules, walk.recursive, tail, depth);
        let lower = at_rest(walk, below);
        let turn = visit(disk, walk.rules, walk.recursive, head, depth);
        assert(all == turn + later);
        lemma_top_of_stack(walk, behind, paths, top_level);
        if excludes(walk.rules, head) {
            assert(turn == none);
            assert(all == later) by {
                assert(none + later =~= later);
            }
            assert(all_steps == later_steps);
            lemma_stack(lower, disk, behind, tail, top_level, depth, fuel);
            assert(at_rest(lower, behind) == base);
        } else {
            let here = enter(disk, walk.rules, walk.recursive, head, depth);
            let steps = steps_in(disk, walk.rules, walk.recursive, head, depth);
            assert(turn == here);
            assert(all_steps == steps + later_steps);
            assert(all.len() == here.len() + later.len());
            let looking = walk.proceed();
            lemma_entry(looking, disk, depth, fuel);
            assert(at_rest(looking, looking.pending) == lower);
            let gone = counted(lower, here.len());
            lemma_stack(gone, disk, behind, tail, top_level, depth, (fuel - steps) as nat);
            assert(counted(at_rest(gone, behind), later.len()) == counted(base, all.len())) by {
                assert(at_rest(gone, behind) == counted(base, here.len()));
                lemma_counted_twice(base, here.len(), later.len());
            }
            let last = journey(
                counted(base, all.len()).proceed(),
                disk,
                (fuel - all_steps) as nat,
            );
            assert((fuel - steps) as nat - later_steps == fuel - all_steps);
            lemma_and_then(here, later, last);
        }
    }
}

/// A whole run shows, for the entries it was given, each entry in its
/// turn: a file itself, a directory's children in their order in the
/// place of the directory, and nothing for what is excluded, cannot be
/// read, or is neither. At the end nothing is left to visit, and as many
/// files are counted as were shown, where files are counted.
pub proof fn lemma_whole_walk(
    viewer: FileCatView,
    rules: Seq<Seq<char>>,
    recursive: bool,
    paths: Seq<Seq<char>>,
    disk: DiskView,
    depth: nat,
    fuel: nat,
)
    requires
        fits_all(disk, rules, recursive, paths, depth),
        fuel >= steps_all(disk, rules, recursive, paths, depth),
    ensures
        ({
            let start = TraversalView::initial(viewer, rules, recursive, paths).proceed();
            let run = journey(start, disk, fuel);
            let shown = visit_all(disk, rules, recursive, paths, depth);
            &&& run.shown == shown
            &&& run.end.waiting is Nothing
            &&& run.end.pending.len() == 0
            &&& run.end.viewer.file_count == viewer.file_count + if viewer.counter {
                shown.len()
            } else {
                0nat
            }
        }),
{
    let initial = TraversalView::initial(viewer, rules, recursive, paths);
    let behind = Seq::<EntryView>::empty();
    let shown = visit_all(disk, rules, recursive, paths, depth);
    assert(stacked_top(paths) =~= stack_of(paths, true));
    assert(initial.pending =~= behind + stack_of(paths, true));
    lemma_stack(initial, disk, behind, paths, true, depth, fuel);
    let end = counted(at_rest(initial, behind), shown.len()).proceed();
    assert(settle(rules, behind) =~= behind);
    assert(end.waiting is Nothing);
    let rest = journey(
        end,
        disk,
        (fuel - steps_all(disk, rules, recursive, paths, depth)) as nat,
    );
    assert(shown + rest.shown =~= shown);
}

} // verus!
