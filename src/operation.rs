use vstd::prelude::*;

use crate::datum::{Datum, DatumView};
use crate::delta::{ProjectState, Recorder};
use crate::object::ObjList;

verus! {

/// An embedder-defined operation on a project with root record `R` and
/// objects `O`. A project's operations form one type, usually an enum of its
/// operation kinds; that type's `deserialize` is the project's registry,
/// which maps a wire name and its data back to an operation.
pub trait Operation<R, O>: Sized {
    /// The effect of the operation on a project: it depends on the project
    /// alone, so every client that performs it on equal projects ends equal.
    spec fn effect(&self, s: ProjectState<R, O>) -> ProjectState<R, O>;

    /// The stable wire name of the operation.
    spec fn name_view(&self) -> Seq<char>;

    /// The data-mode encoding of the operation.
    spec fn data_view(&self) -> DatumView;

    /// The operation that a wire name and its data stand for, if any.
    spec fn decoded(name: Seq<char>, data: DatumView) -> Option<Self>;

    /// An operation is recovered from its own name and encoding.
    proof fn lemma_round_trip(&self)
        ensures
            Self::decoded(self.name_view(), self.data_view()) == Some(*self),
    ;

    fn name(&self) -> (r: String)
        ensures
            r@ == self.name_view(),
    ;

    fn serialize(&self) -> (r: Datum)
        ensures
            r@ == self.data_view(),
    ;

    fn deserialize(name: &String, data: &Datum) -> (r: Option<Self>)
        ensures
            r == Self::decoded(name@, data@),
    ;

    /// Performs the operation through the recorder, which records the deltas
    /// that undo it.
    fn perform(&self, recorder: &mut Recorder<R, O>)
        requires
            old(recorder).wf(),
        ensures
            final(recorder).wf(),
            final(recorder).start() == old(recorder).start(),
            final(recorder).state() == self.effect(old(recorder).state()),
    ;

    /// The inverse of the operation against a project, if any.
    spec fn inverse_of(&self, s: ProjectState<R, O>) -> Option<Self>;

    /// An inverse undoes the operation on the project it was computed
    /// against.
    proof fn lemma_inverse(&self, s: ProjectState<R, O>)
        ensures
            self.inverse_of(s) matches Some(inv) ==> inv.effect(self.effect(s)) == s,
    ;

    /// The inverse of an inverse, computed after the operation, does what
    /// the operation did.
    proof fn lemma_inverse_inverse(&self, s: ProjectState<R, O>)
        ensures
            self.inverse_of(s) matches Some(inv) ==> (inv.inverse_of(self.effect(s)) matches Some(ii)
                ==> ii.effect(s) == self.effect(s)),
    ;

    /// The operation that undoes this one, computed against the project as
    /// it stands before this one is performed; `None` when there is none.
    fn inverse(&self, project: &R, objects: &ObjList<O>) -> (r: Option<Self>)
        ensures
            r == self.inverse_of(ProjectState { project: *project, objects: objects.objects() }),
    ;
}

/// The project after the operations `ops` are performed on `s`, first to
/// last.
pub open spec fn run<R, O, Op: Operation<R, O>>(ops: Seq<Op>, s: ProjectState<R, O>) -> ProjectState<R, O>
    decreases ops.len(),
{
    if ops.len() == 0 {
        s
    } else {
        ops.last().effect(run(ops.drop_last(), s))
    }
}

pub proof fn lemma_run_push<R, O, Op: Operation<R, O>>(ops: Seq<Op>, op: Op, s: ProjectState<R, O>)
    ensures
        run(ops.push(op), s) == op.effect(run(ops, s)),
{
    assert(ops.push(op).drop_last() =~= ops);
}

pub proof fn lemma_run_first<R, O, Op: Operation<R, O>>(ops: Seq<Op>, s: ProjectState<R, O>)
    requires
        ops.len() > 0,
    ensures
        run(ops, s) == run(ops.drop_first(), ops[0].effect(s)),
    decreases ops.len(),
{
    if ops.len() > 1 {
        lemma_run_first(ops.drop_last(), s);
        assert(ops.drop_last().drop_first() =~= ops.drop_first().drop_last());
        assert(ops.drop_last()[0] == ops[0]);
        assert(ops.drop_first().last() == ops.last());
        assert(run(ops.drop_first(), ops[0].effect(s)) == ops.drop_first().last().effect(
            run(ops.drop_first().drop_last(), ops[0].effect(s)),
        ));
    } else {
        assert(ops.drop_first().len() == 0);
        assert(ops.drop_last().len() == 0);
        assert(run(ops.drop_last(), s) == s);
        assert(run(ops.drop_first(), ops[0].effect(s)) == ops[0].effect(s));
    }
}

/// An operation sent on the wire is read back as the same operation: the
/// registry maps its name and data-mode encoding back to it.
pub proof fn lemma_operation_round_trip<R, O, Op: Operation<R, O>>(o: Op)
    ensures
        Op::decoded(o.name_view(), o.data_view()) == Some(o),
{
    o.lemma_round_trip();
}

/// Performing an operation and then the inverse it computed against the
/// project it started from gives that project back.
pub proof fn lemma_operation_then_inverse<R, O, Op: Operation<R, O>>(o: Op, s: ProjectState<R, O>)
    ensures
        o.inverse_of(s) matches Some(inv) ==> inv.effect(o.effect(s)) == s,
{
    o.lemma_inverse(s);
}

/// Undoing an operation and then redoing it with the inverse of the undo
/// performs what the operation performed.
pub proof fn lemma_redo_repeats<R, O, Op: Operation<R, O>>(o: Op, s: ProjectState<R, O>)
    ensures
        o.inverse_of(s) matches Some(inv) ==> (inv.inverse_of(o.effect(s)) matches Some(ii) ==> ii.effect(s)
            == o.effect(s) && inv.effect(ii.effect(s)) == s),
{
    o.lemma_inverse_inverse(s);
    o.lemma_inverse(s);
}

} // verus!
