use vstd::prelude::*;

use crate::delta::ProjectState;
use crate::object::ObjList;
use crate::operation::{lemma_run_first, run, Operation};

verus! {

/// Something that holds a project and performs operations on it: a local
/// client or a collab client.
pub trait Client<R, O, Op: Operation<R, O>>: Sized {
    spec fn client_wf(&self) -> bool;

    spec fn client_state(&self) -> ProjectState<R, O>;

    fn project(&self) -> (r: &R)
        requires
            self.client_wf(),
        ensures
            *r == self.client_state().project,
    ;

    fn objects(&self) -> (r: &ObjList<O>)
        requires
            self.client_wf(),
        ensures
            r.objects() == self.client_state().objects,
    ;

    fn perform_op(&mut self, op: Op)
        requires
            old(self).client_wf(),
        ensures
            final(self).client_wf(),
            final(self).client_state() == op.effect(old(self).client_state()),
    ;
}

/// An ordered bundle of operations: the unit of undo and redo. Performing
/// an action performs its operations last to first.
pub struct Action<Op> {
    acts: Vec<Op>,
}

/// The project after an action with the operations `acts` is performed on
/// `s`.
pub open spec fn perform_action<R, O, Op: Operation<R, O>>(acts: Seq<Op>, s: ProjectState<R, O>) -> ProjectState<R, O> {
    run(acts.reverse(), s)
}

/// The inverses of the operations `ops`, performed first to last from `s`,
/// each computed just before its operation, in the order they were
/// computed. An operation without an inverse contributes none.
pub open spec fn inverses<R, O, Op: Operation<R, O>>(ops: Seq<Op>, s: ProjectState<R, O>) -> Seq<Op>
    decreases ops.len(),
{
    if ops.len() == 0 {
        Seq::empty()
    } else {
        let rest = inverses(ops.drop_first(), ops[0].effect(s));
        match ops[0].inverse_of(s) {
            Some(i) => seq![i] + rest,
            None => rest,
        }
    }
}

/// The inverse of an action performed on `s`: the inverses of its
/// operations, in the order they are performed (last to first).
pub open spec fn inverse_action<R, O, Op: Operation<R, O>>(acts: Seq<Op>, s: ProjectState<R, O>) -> Seq<Op> {
    inverses(acts.reverse(), s)
}

proof fn lemma_inverses_push<R, O, Op: Operation<R, O>>(ops: Seq<Op>, op: Op, s: ProjectState<R, O>)
    ensures
        inverses(ops.push(op), s) == inverses(ops, s) + match op.inverse_of(run(ops, s)) {
            Some(i) => seq![i],
            None => Seq::<Op>::empty(),
        },
    decreases ops.len(),
{
    if ops.len() == 0 {
        assert(ops.push(op).drop_first() =~= Seq::<Op>::empty());
        assert(ops.push(op)[0] == op);
        assert(inverses(ops.push(op).drop_first(), op.effect(s)) == Seq::<Op>::empty());
        match op.inverse_of(s) {
            Some(i) => {
                assert(seq![i] + Seq::<Op>::empty() =~= seq![i]);
                assert(Seq::<Op>::empty() + seq![i] =~= seq![i]);
            },
            None => {
                assert(Seq::<Op>::empty() + Seq::<Op>::empty() =~= Seq::<Op>::empty());
            },
        }
    } else {
        lemma_inverses_push(ops.drop_first(), op, ops[0].effect(s));
        assert(ops.push(op).drop_first() =~= ops.drop_first().push(op));
        assert(ops.push(op)[0] == ops[0]);
        lemma_run_first(ops, s);
        let tail = match op.inverse_of(run(ops, s)) {
            Some(i) => seq![i],
            None => Seq::<Op>::empty(),
        };
        match ops[0].inverse_of(s) {
            Some(i) => {
                assert(seq![i] + (inverses(ops.drop_first(), ops[0].effect(s)) + tail) =~= (seq![i]
                    + inverses(ops.drop_first(), ops[0].effect(s))) + tail);
            },
            None => {},
        }
    }
}

/// When every operation of `ops` has an inverse, performing the inverses
/// last to first after `ops` brings the project back to `s`.
pub proof fn lemma_inverses_restore<R, O, Op: Operation<R, O>>(ops: Seq<Op>, s: ProjectState<R, O>)
    requires
        inverses(ops, s).len() == ops.len(),
    ensures
        run(inverses(ops, s).reverse(), run(ops, s)) == s,
    decreases ops.len(),
{
    lemma_inverses_len(ops, s);
    if ops.len() > 0 {
        let op = ops[0];
        let s1 = op.effect(s);
        let rest = inverses(ops.drop_first(), s1);
        lemma_inverses_len(ops.drop_first(), s1);
        op.lemma_inverse(s);
        let i = op.inverse_of(s)->0;
        assert(inverses(ops, s) == seq![i] + rest);
        lemma_inverses_restore(ops.drop_first(), s1);
        lemma_run_first(ops, s);
        assert((seq![i] + rest).reverse() =~= rest.reverse().push(i));
        crate::operation::lemma_run_push(rest.reverse(), i, run(ops, s));
    }
}

proof fn lemma_inverses_len<R, O, Op: Operation<R, O>>(ops: Seq<Op>, s: ProjectState<R, O>)
    ensures
        inverses(ops, s).len() <= ops.len(),
        inverses(ops, s).len() == ops.len() && ops.len() > 0 ==> ops[0].inverse_of(s) is Some,
    decreases ops.len(),
{
    if ops.len() > 0 {
        lemma_inverses_len(ops.drop_first(), ops[0].effect(s));
    }
}

/// Undoing an action and then performing its inverse brings the project
/// back, and so undoing, redoing and undoing again leaves the project as the
/// first undo left it, when every step found an inverse for each operation.
pub proof fn lemma_undo_redo_undo<R, O, Op: Operation<R, O>>(undo: Seq<Op>, s0: ProjectState<R, O>)
    requires
        inverse_action(undo, s0).len() == undo.len(),
        inverse_action(inverse_action(undo, s0), perform_action(undo, s0)).len() == undo.len(),
    ensures
        perform_action(inverse_action(undo, s0), perform_action(undo, s0)) == s0,
        ({
            let s1 = perform_action(undo, s0);
            let redo = inverse_action(undo, s0);
            let undo_again = inverse_action(redo, s1);
            perform_action(undo_again, perform_action(redo, s1)) == s1
        }),
{
    lemma_inverses_restore(undo.reverse(), s0);
    let s1 = perform_action(undo, s0);
    let redo = inverse_action(undo, s0);
    lemma_inverses_len(undo.reverse(), s0);
    assert(redo.len() == undo.len());
    lemma_inverses_restore(redo.reverse(), s1);
}

impl<Op> Action<Op> {
    /// The operations of the action.
    pub closed spec fn acts(&self) -> Seq<Op> {
        self.acts@
    }

    pub fn new() -> (r: Action<Op>)
        ensures
            r.acts() == Seq::<Op>::empty(),
    {
        Action { acts: Vec::new() }
    }

    pub fn push(&mut self, op: Op)
        ensures
            final(self).acts() == old(self).acts().push(op),
    {
        self.acts.push(op);
    }

    pub fn len(&self) -> (r: usize)
        ensures
            r == self.acts().len(),
    {
        self.acts.len()
    }

    /// Performs the action on a client and returns its inverse: for each
    /// operation, last to first, the inverse computed just before it is
    /// performed. An operation without an inverse contributes none.
    pub fn perform<R, O, C: Client<R, O, Op>>(self, client: &mut C) -> (inv: Action<Op>)
        where
            Op: Operation<R, O>,
        requires
            old(client).client_wf(),
        ensures
            final(client).client_wf(),
            final(client).client_state() == perform_action(self.acts(), old(client).client_state()),
            inv.acts() == inverse_action(self.acts(), old(client).client_state()),
    {
        let mut acts = self.acts;
        let ghost all = acts@;
        let ghost s0 = client.client_state();
        let mut inverse: Vec<Op> = Vec::new();
        let mut k: usize = 0;
        let n = acts.len();
        proof {
            assert(all.reverse().take(0) =~= Seq::<Op>::empty());
        }
        while acts.len() > 0
            invariant
                client.client_wf(),
                acts@ == all.take(all.len() - k),
                0 <= k <= all.len(),
                acts@.len() == all.len() - k,
                client.client_state() == run(all.reverse().take(k as int), s0),
                all.len() == n,
                inverse@ == inverses(all.reverse().take(k as int), s0),
            decreases acts@.len(),
        {
            let op = acts.pop().unwrap();
            proof {
                assert(op == all[all.len() - k - 1]);
                assert(all.reverse()[k as int] == op);
                assert(acts@ =~= all.take(all.len() - (k + 1)));
                assert(all.reverse().take(k + 1).drop_last() =~= all.reverse().take(k as int));
                assert(all.reverse().take(k + 1).last() == op);
            }
            let i = op.inverse(client.project(), client.objects());
            client.perform_op(op);
            proof {
                lemma_inverses_push(all.reverse().take(k as int), op, s0);
                assert(all.reverse().take(k + 1) =~= all.reverse().take(k as int).push(op));
            }
            match i {
                Some(i) => {
                    inverse.push(i);
                },
                None => {
                    assert(inverse@ + Seq::<Op>::empty() =~= inverse@);
                },
            }
            k += 1;
        }
        proof {
            assert(all.reverse().take(all.len() as int) =~= all.reverse());
        }
        Action { acts: inverse }
    }
}

/// Two stacks of actions: what can be undone and what can be redone.
pub struct UndoRedoManager<Op> {
    undo_stack: Vec<Action<Op>>,
    redo_stack: Vec<Action<Op>>,
}

impl<Op> UndoRedoManager<Op> {
    pub closed spec fn undo_stack(&self) -> Seq<Seq<Op>> {
        Seq::new(self.undo_stack@.len(), |i: int| self.undo_stack@[i].acts())
    }

    pub closed spec fn redo_stack(&self) -> Seq<Seq<Op>> {
        Seq::new(self.redo_stack@.len(), |i: int| self.redo_stack@[i].acts())
    }

    pub fn new() -> (r: UndoRedoManager<Op>)
        ensures
            r.undo_stack() == Seq::<Seq<Op>>::empty(),
            r.redo_stack() == Seq::<Seq<Op>>::empty(),
    {
        let r = UndoRedoManager { undo_stack: Vec::new(), redo_stack: Vec::new() };
        assert(r.undo_stack() =~= Seq::<Seq<Op>>::empty());
        assert(r.redo_stack() =~= Seq::<Seq<Op>>::empty());
        r
    }

    /// Records a new action: it can be undone, and nothing can be redone.
    pub fn add(&mut self, action: Action<Op>)
        ensures
            final(self).undo_stack() == old(self).undo_stack().push(action.acts()),
            final(self).redo_stack() == Seq::<Seq<Op>>::empty(),
    {
        self.undo_stack.push(action);
        self.redo_stack.clear();
        assert(self.undo_stack() =~= old(self).undo_stack().push(action.acts()));
        assert(self.redo_stack() =~= Seq::<Seq<Op>>::empty());
    }

    pub fn can_undo(&self) -> (r: bool)
        ensures
            r == (self.undo_stack().len() > 0),
    {
        self.undo_stack.len() > 0
    }

    pub fn can_redo(&self) -> (r: bool)
        ensures
            r == (self.redo_stack().len() > 0),
    {
        self.redo_stack.len() > 0
    }

    /// Performs the most recent undoable action and makes its inverse
    /// redoable. Nothing happens when there is none.
    pub fn undo<R, O, C: Client<R, O, Op>>(&mut self, client: &mut C)
        where
            Op: Operation<R, O>,
        requires
            old(client).client_wf(),
        ensures
            final(client).client_wf(),
            old(self).undo_stack().len() == 0 ==> final(client).client_state() == old(client).client_state()
                && final(self).undo_stack() == old(self).undo_stack() && final(self).redo_stack()
                == old(self).redo_stack(),
            old(self).undo_stack().len() > 0 ==> {
                let a = old(self).undo_stack().last();
                &&& final(client).client_state() == perform_action(a, old(client).client_state())
                &&& final(self).undo_stack() == old(self).undo_stack().drop_last()
                &&& final(self).redo_stack() == old(self).redo_stack().push(
                    inverse_action(a, old(client).client_state()),
                )
            },
    {
        match self.undo_stack.pop() {
            Some(action) => {
                let inv = action.perform(client);
                self.redo_stack.push(inv);
                assert(self.undo_stack() =~= old(self).undo_stack().drop_last());
                assert(self.redo_stack() =~= old(self).redo_stack().push(inv.acts()));
            },
            None => {},
        }
    }

    /// Performs the most recent redoable action and makes its inverse
    /// undoable again. Nothing happens when there is none.
    pub fn redo<R, O, C: Client<R, O, Op>>(&mut self, client: &mut C)
        where
            Op: Operation<R, O>,
        requires
            old(client).client_wf(),
        ensures
            final(client).client_wf(),
            old(self).redo_stack().len() == 0 ==> final(client).client_state() == old(client).client_state()
                && final(self).undo_stack() == old(self).undo_stack() && final(self).redo_stack()
                == old(self).redo_stack(),
            old(self).redo_stack().len() > 0 ==> {
                let a = old(self).redo_stack().last();
                &&& final(client).client_state() == perform_action(a, old(client).client_state())
                &&& final(self).redo_stack() == old(self).redo_stack().drop_last()
                &&& final(self).undo_stack() == old(self).undo_stack().push(
                    inverse_action(a, old(client).client_state()),
                )
            },
    {
        match self.redo_stack.pop() {
            Some(action) => {
                let inv = action.perform(client);
                self.undo_stack.push(inv);
                assert(self.redo_stack() =~= old(self).redo_stack().drop_last());
                assert(self.undo_stack() =~= old(self).undo_stack().push(inv.acts()));
            },
            None => {},
        }
    }
}

/// Performs an operation on a client as part of an action: its inverse,
/// computed against the project before it, is added to the action (when
/// there is one), so that performing the action undoes the operation.
pub fn perform<R, O, Op: Operation<R, O>, C: Client<R, O, Op>>(client: &mut C, action: &mut Action<Op>, op: Op)
    requires
        old(client).client_wf(),
    ensures
        final(client).client_wf(),
        final(client).client_state() == op.effect(old(client).client_state()),
        final(action).acts() == match op.inverse_of(old(client).client_state()) {
            Some(i) => old(action).acts().push(i),
            None => old(action).acts(),
        },
{
    let inv = op.inverse(client.project(), client.objects());
    client.perform_op(op);
    match inv {
        Some(i) => action.push(i),
        None => {},
    }
}

} // verus!
