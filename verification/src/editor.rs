//! The editor's record of actions: the actions under way, by kind, and the stacks of actions
//! done and undone. An action's own work (beginning, ending, undoing, redoing it) is done by
//! its caller; these steps say which action that work applies to and where the action goes
//! once the work has succeeded.
use vstd::prelude::*;

use std::collections::HashMap;

verus! {

broadcast use vstd::std_specs::hash::group_hash_axioms;

/// The editor's actions of kind `A`: those under way, done and undone. Actions under way are
/// kept by the number of their kind; at most one action of a kind is under way.
pub struct EditorState<A> {
    actions_in_progress: HashMap<u64, A>,
    action_history: Vec<A>,
    undo_history: Vec<A>,
}

impl<A> EditorState<A> {
    /// The actions under way, by kind.
    pub closed spec fn in_progress(&self) -> Map<u64, A> {
        self.actions_in_progress@
    }

    /// The actions done, oldest first: the last is the next to be undone.
    pub closed spec fn done(&self) -> Seq<A> {
        self.action_history@
    }

    /// The actions undone, oldest first: the last is the next to be redone.
    pub closed spec fn undone(&self) -> Seq<A> {
        self.undo_history@
    }

    /// A state with no actions.
    pub fn new() -> (s: Self)
        ensures
            s.in_progress() == Map::<u64, A>::empty(),
            s.done() == Seq::<A>::empty(),
            s.undone() == Seq::<A>::empty(),
    {
        EditorState {
            actions_in_progress: HashMap::new(),
            action_history: Vec::new(),
            undo_history: Vec::new(),
        }
    }

    /// Records `action`, whose beginning has been done, as the action of kind `kind` under
    /// way. An action of that kind already under way is replaced and handed back.
    pub fn begin_action(&mut self, kind: u64, action: A) -> (replaced: Option<A>)
        ensures
            final(self).in_progress() == old(self).in_progress().insert(kind, action),
            replaced is Some <==> old(self).in_progress().contains_key(kind),
            replaced matches Some(a) ==> a == old(self).in_progress()[kind],
            final(self).done() == old(self).done(),
            final(self).undone() == old(self).undone(),
    {
        self.actions_in_progress.insert(kind, action)
    }

    /// Whether an action of kind `kind` is under way.
    pub fn action_in_progress(&self, kind: u64) -> (r: bool)
        ensures
            r == self.in_progress().contains_key(kind),
    {
        self.actions_in_progress.contains_key(&kind)
    }

    /// Takes the action of kind `kind` off the actions under way, for its end to be done.
    pub fn end_action(&mut self, kind: u64) -> (r: Option<A>)
        ensures
            final(self).in_progress() == old(self).in_progress().remove(kind),
            r is Some <==> old(self).in_progress().contains_key(kind),
            r matches Some(a) ==> a == old(self).in_progress()[kind],
            final(self).done() == old(self).done(),
            final(self).undone() == old(self).undone(),
    {
        self.actions_in_progress.remove(&kind)
    }

    /// Records an action as done: its end, or its redoing, has succeeded.
    pub fn push_done(&mut self, action: A)
        ensures
            final(self).done() == old(self).done().push(action),
            final(self).undone() == old(self).undone(),
            final(self).in_progress() == old(self).in_progress(),
    {
        self.action_history.push(action);
    }

    /// Takes the last action done, to be undone; none when nothing was done.
    pub fn undo(&mut self) -> (r: Option<A>)
        ensures
            old(self).done().len() == 0 ==> r is None && final(self).done() == old(self).done(),
            old(self).done().len() > 0 ==> r == Some(old(self).done().last())
                && final(self).done() == old(self).done().drop_last(),
            final(self).undone() == old(self).undone(),
            final(self).in_progress() == old(self).in_progress(),
    {
        self.action_history.pop()
    }

    /// Records an action as undone: its undoing has succeeded.
    pub fn push_undone(&mut self, action: A)
        ensures
            final(self).undone() == old(self).undone().push(action),
            final(self).done() == old(self).done(),
            final(self).in_progress() == old(self).in_progress(),
    {
        self.undo_history.push(action);
    }

    /// Takes the last action undone, to be redone; none when nothing was undone.
    pub fn redo(&mut self) -> (r: Option<A>)
        ensures
            old(self).undone().len() == 0 ==> r is None && final(self).undone() == old(self).undone(),
            old(self).undone().len() > 0 ==> r == Some(old(self).undone().last())
                && final(self).undone() == old(self).undone().drop_last(),
            final(self).done() == old(self).done(),
            final(self).in_progress() == old(self).in_progress(),
    {
        self.undo_history.pop()
    }
}

impl<A> Default for EditorState<A> {
    fn default() -> (s: Self)
        ensures
            s.in_progress() == Map::<u64, A>::empty(),
            s.done() == Seq::<A>::empty(),
            s.undone() == Seq::<A>::empty(),
    {
        Self::new()
    }
}

/// Undoing the last action done and then redoing it, both with success, gives back the same
/// action and leaves the actions done and undone as they were: `before` goes through `undo`
/// to `taken`, `push_undone` to `undone`, `redo` to `retaken` and `push_done` to `after`.
pub proof fn law_undo_then_redo<A>(
    before: EditorState<A>,
    taken: EditorState<A>,
    undone: EditorState<A>,
    retaken: EditorState<A>,
    after: EditorState<A>,
    a: A,
    b: A,
)
    requires
        before.done().len() > 0,
        a == before.done().last(),
        taken.done() == before.done().drop_last(),
        taken.undone() == before.undone(),
        undone.undone() == taken.undone().push(a),
        undone.done() == taken.done(),
        b == undone.undone().last(),
        retaken.undone() == undone.undone().drop_last(),
        retaken.done() == undone.done(),
        after.done() == retaken.done().push(b),
        after.undone() == retaken.undone(),
    ensures
        b == a,
        after.done() == before.done(),
        after.undone() == before.undone(),
{
    assert(before.done().drop_last().push(a) =~= before.done());
    assert(before.undone().push(a).drop_last() =~= before.undone());
}

} // verus!
