//! What an import makes of a directory tree.
//!
//! The importer of [`crate::import`] sees a tree one answer at a time. Here
//! the tree is a value, the archive it should give is stated outright, and
//! an import whose every request is answered from the tree is shown to end
//! with exactly that.

use vstd::prelude::*;
use crate::error::ErrorModel;
use crate::import::{
    advance, begin, child_path, children, visit_next, ActionModel, AwaitingModel, EntryKind,
    EntryModel, EventModel, ImporterModel, PendingModel,
};
use crate::record::{path_fits, RecordModel};

verus! {

/// What stands at a place in a directory tree.
pub enum Node {
    /// A regular file and its contents.
    File(Seq<u8>),
    /// A directory and its entries, in listing order.
    Directory(Seq<Named>),
    /// Something that is neither.
    Other,
}

/// An entry of a directory: a name, and what stands under it.
pub struct Named {
    pub name: Seq<char>,
    pub node: Node,
}

/// A node together with its path relative to the root.
pub struct Located {
    pub path: Seq<char>,
    pub node: Node,
}

/// Records or the fault that ended the walk.
pub type Walked = Result<Seq<RecordModel>, ErrorModel>;

/// One part of a walk after another: the records of both in order, or the
/// first fault.
pub open spec fn in_turn(first: Walked, second: Walked) -> Walked {
    match first {
        Err(e) => Err(e),
        Ok(before) => match second {
            Err(e) => Err(e),
            Ok(after) => Ok(before + after),
        },
    }
}

/// What the node at `path` gives: a file its record, unless its path does
/// not fit a path field; a directory what its entries give; anything else
/// a fault.
pub open spec fn found(path: Seq<char>, node: Node) -> Walked
    decreases node,
{
    match node {
        Node::File(data) => if path_fits(path) {
            Ok(seq![RecordModel { path, data }])
        } else {
            Err(ErrorModel::PathTooLong(path))
        },
        Node::Directory(entries) => walk(path, entries),
        Node::Other => Err(ErrorModel::UnsupportedEntry),
    }
}

/// What the entries of `directory` give, depth first and in listing
/// order: the records of the first entry, then those of the others.
pub open spec fn walk(directory: Seq<char>, entries: Seq<Named>) -> Walked
    decreases entries,
{
    if entries.len() == 0 {
        Ok(Seq::empty())
    } else {
        in_turn(
            found(child_path(directory, entries[0].name), entries[0].node),
            walk(directory, entries.drop_first()),
        )
    }
}

/// The kind under which a node is listed.
pub open spec fn kind_of(node: Node) -> EntryKind {
    match node {
        Node::File(_) => EntryKind::File,
        Node::Directory(_) => EntryKind::Directory,
        Node::Other => EntryKind::Other,
    }
}

/// The true answer to a request for `node`: a file's contents, a
/// directory's listing.
pub open spec fn answer(node: Node) -> EventModel {
    match node {
        Node::File(data) => EventModel::Read(data),
        Node::Directory(entries) => EventModel::Listed(
            Seq::new(
                entries.len(),
                |i: int| EntryModel { name: entries[i].name, kind: kind_of(entries[i].node) },
            ),
        ),
        Node::Other => EventModel::Failed,
    }
}

/// The entries of `directory`, each with its path.
pub open spec fn located(directory: Seq<char>, entries: Seq<Named>) -> Seq<Located> {
    Seq::new(
        entries.len(),
        |i: int| Located { path: child_path(directory, entries[i].name), node: entries[i].node },
    )
}

/// The nodes an importer has still to visit, as it knows them.
pub open spec fn pendings(todo: Seq<Located>) -> Seq<PendingModel> {
    Seq::new(todo.len(), |i: int| PendingModel { path: todo[i].path, kind: kind_of(todo[i].node) })
}

/// The nodes still to visit once the request for `current` is answered: a
/// directory puts its entries before the others, the first listed last.
pub open spec fn todo_after(state: ImporterModel, current: Node, todo: Seq<Located>) -> Seq<
    Located,
> {
    match (state.awaiting, current) {
        (AwaitingModel::Listing(directory), Node::Directory(entries)) => todo + located(
            directory,
            entries,
        ).reverse(),
        _ => todo,
    }
}

/// How an import ends when each request is answered from the tree:
/// `current` is the node asked for, `todo` the nodes behind the pending
/// entries, and `fuel` bounds the number of requests answered.
pub open spec fn run(state: ImporterModel, current: Node, todo: Seq<Located>, fuel: nat) -> ActionModel
    decreases fuel,
{
    let (next, action) = advance(state, answer(current));
    match action {
        ActionModel::Finish(_) | ActionModel::Fail(_) => action,
        _ => if fuel == 0 {
            action
        } else {
            let rest = todo_after(state, current, todo);
            run(next, rest.last().node, rest.drop_last(), (fuel - 1) as nat)
        },
    }
}

/// The number of nodes in and under a node.
pub open spec fn weight(node: Node) -> nat
    decreases node,
{
    match node {
        Node::Directory(entries) => 1 + weight_of(entries),
        _ => 1,
    }
}

/// The number of nodes in and under the entries of a directory.
pub open spec fn weight_of(entries: Seq<Named>) -> nat
    decreases entries,
{
    if entries.len() == 0 {
        0
    } else {
        weight(entries[0].node) + weight_of(entries.drop_first())
    }
}

/// How an import that ends with `walked` shows it, after `files`.
pub open spec fn ending(files: Seq<RecordModel>, walked: Walked) -> ActionModel {
    match walked {
        Ok(more) => ActionModel::Finish(files + more),
        Err(e) => ActionModel::Fail(e),
    }
}

/// What the nodes still to visit give, the last of them first.
spec fn stack_walk(todo: Seq<Located>) -> Walked
    decreases todo.len(),
{
    if todo.len() == 0 {
        Ok(Seq::empty())
    } else {
        in_turn(found(todo.last().path, todo.last().node), stack_walk(todo.drop_last()))
    }
}

/// The number of nodes in and under the nodes still to visit.
spec fn stack_weight(todo: Seq<Located>) -> nat
    decreases todo.len(),
{
    if todo.len() == 0 {
        0
    } else {
        weight(todo.last().node) + stack_weight(todo.drop_last())
    }
}

/// Whether an importer in `state` has asked for `current` and has the
/// nodes of `todo` pending.
spec fn tracks(state: ImporterModel, current: Node, todo: Seq<Located>) -> bool {
    &&& state.pending == pendings(todo)
    &&& match current {
        Node::File(_) => state.awaiting is Contents,
        Node::Directory(_) => state.awaiting is Listing,
        Node::Other => false,
    }
}

/// The path an importer has asked for.
spec fn awaited(state: ImporterModel) -> Seq<char> {
    match state.awaiting {
        AwaitingModel::Listing(path) => path,
        AwaitingModel::Contents(path) => path,
        AwaitingModel::Nothing => Seq::empty(),
    }
}

/// Walks in sequence may be grouped either way.
proof fn lemma_in_turn_associates(first: Walked, second: Walked, third: Walked)
    ensures
        in_turn(in_turn(first, second), third) == in_turn(first, in_turn(second, third)),
{
    if let (Ok(a), Ok(b), Ok(c)) = (first, second, third) {
        assert((a + b) + c =~= a + (b + c));
    }
}

/// Nothing walked first changes nothing.
proof fn lemma_in_turn_nothing(walked: Walked)
    ensures
        in_turn(Ok(Seq::empty()), walked) == walked,
        in_turn(walked, Ok(Seq::empty())) == walked,
{
    if let Ok(records) = walked {
        assert(Seq::<RecordModel>::empty() + records =~= records);
        assert(records + Seq::<RecordModel>::empty() =~= records);
    }
}

/// Putting the entries of a directory on the stack, the first listed
/// last, is visiting the directory before the rest of the stack.
proof fn lemma_stack_with_entries(todo: Seq<Located>, directory: Seq<char>, entries: Seq<Named>)
    ensures
        stack_walk(todo + located(directory, entries).reverse()) == in_turn(
            walk(directory, entries),
            stack_walk(todo),
        ),
        stack_weight(todo + located(directory, entries).reverse()) == stack_weight(todo)
            + weight_of(entries),
    decreases entries.len(),
{
    let stack = todo + located(directory, entries).reverse();
    if entries.len() == 0 {
        assert(stack =~= todo);
        lemma_in_turn_nothing(stack_walk(todo));
    } else {
        let rest = entries.drop_first();
        let first = found(child_path(directory, entries[0].name), entries[0].node);
        assert(stack.last() == located(directory, entries)[0]);
        assert(stack.drop_last() =~= todo + located(directory, rest).reverse());
        lemma_stack_with_entries(todo, directory, rest);
        lemma_in_turn_associates(first, walk(directory, rest), stack_walk(todo));
    }
}

/// Turning to the next node either ends the import as the nodes still to
/// visit say, or asks for the last of them and keeps the others pending.
proof fn lemma_visit_next(todo: Seq<Located>, files: Seq<RecordModel>)
    ensures
        ({
            let (next, action) = visit_next(pendings(todo), files);
            match action {
                ActionModel::Finish(_) | ActionModel::Fail(_) => action == ending(
                    files,
                    stack_walk(todo),
                ),
                _ => {
                    &&& todo.len() > 0
                    &&& tracks(next, todo.last().node, todo.drop_last())
                    &&& awaited(next) == todo.last().path
                    &&& next.files == files
                },
            }
        }),
{
    if todo.len() == 0 {
        assert(files + Seq::<RecordModel>::empty() =~= files);
    } else {
        assert(pendings(todo).last() == PendingModel {
            path: todo.last().path,
            kind: kind_of(todo.last().node),
        });
        assert(pendings(todo).drop_last() =~= pendings(todo.drop_last()));
    }
}

/// An import answered from the tree ends as the node asked for and the
/// nodes still to visit say.
proof fn lemma_run_ends(state: ImporterModel, current: Node, todo: Seq<Located>, fuel: nat)
    requires
        tracks(state, current, todo),
        fuel >= weight(current) + stack_weight(todo),
    ensures
        run(state, current, todo, fuel) == ending(
            state.files,
            in_turn(found(awaited(state), current), stack_walk(todo)),
        ),
    decreases fuel,
{
    let path = awaited(state);
    let (next, action) = advance(state, answer(current));
    let rest = todo_after(state, current, todo);
    match current {
        Node::File(data) => {
            if path_fits(path) {
                let record = RecordModel { path, data };
                let files = state.files.push(record);
                lemma_visit_next(todo, files);
                match action {
                    ActionModel::Finish(_) | ActionModel::Fail(_) => {},
                    _ => {
                        lemma_run_ends(next, rest.last().node, rest.drop_last(), (fuel - 1) as nat);
                    },
                }
                if let Ok(more) = stack_walk(todo) {
                    assert(files + more =~= state.files + (seq![record] + more));
                }
            }
        },
        Node::Directory(entries) => {
            let listed = Seq::new(
                entries.len(),
                |i: int| EntryModel { name: entries[i].name, kind: kind_of(entries[i].node) },
            );
            assert(pendings(rest) =~= state.pending + children(path, listed).reverse());
            lemma_stack_with_entries(todo, path, entries);
            lemma_visit_next(rest, state.files);
            match action {
                ActionModel::Finish(_) | ActionModel::Fail(_) => {},
                _ => {
                    lemma_run_ends(next, rest.last().node, rest.drop_last(), (fuel - 1) as nat);
                },
            }
        },
        Node::Other => {},
    }
}

/// An import of a directory whose every request is answered from the
/// tree ends with the files of the tree, depth first and in listing
/// order, each under its path relative to the root; or with the fault of
/// the first entry, in that order, that is not a file or directory or
/// whose path does not fit a path field.
pub proof fn lemma_import_walks_tree(entries: Seq<Named>, fuel: nat)
    requires
        fuel >= weight(Node::Directory(entries)),
    ensures
        run(begin(EntryKind::Directory).0, Node::Directory(entries), Seq::empty(), fuel) == ending(
            Seq::empty(),
            walk(Seq::empty(), entries),
        ),
{
    let state = begin(EntryKind::Directory).0;
    assert(state.pending =~= pendings(Seq::empty()));
    lemma_run_ends(state, Node::Directory(entries), Seq::empty(), fuel);
    lemma_in_turn_nothing(walk(Seq::empty(), entries));
}

} // verus!
