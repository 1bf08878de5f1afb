use vstd::prelude::*;

use crate::datum::{field_of, rmpv_get, Datum};
use crate::serialization::{load_inline, LoadMode, LoadingContext, Serializable};
use crate::delta::{undo_all, Delta, ProjectContext, ProjectState, Recorder};
use crate::action::Client;
use crate::keychain::KeyChain;
use crate::message::{message_of, parse_message, Message, MessageView};
use crate::object::ObjList;
use crate::operation::{lemma_run_first, lemma_run_push, run, Operation};

verus! {

/// Undoing the deltas of the `i`-th unconfirmed operation, on the project as
/// it stands after the first `i + 1` of them, gives the project as it stood
/// before that operation.
pub open spec fn rewinds<R, O, Op: Operation<R, O>>(
    ops: Seq<Op>,
    deltas: Seq<Seq<Delta<R, O>>>,
    server: ProjectState<R, O>,
    i: int,
) -> bool {
    undo_all(deltas[i], run(ops.take(i + 1), server)) == run(ops.take(i), server)
}

/// The project after the deltas of the unconfirmed operations are performed
/// on `s`: each operation's deltas last to first, from the last operation
/// back to the first.
pub open spec fn rewind_all<R, O>(deltas: Seq<Seq<Delta<R, O>>>, s: ProjectState<R, O>) -> ProjectState<R, O>
    decreases deltas.len(),
{
    if deltas.len() == 0 {
        s
    } else {
        rewind_all(deltas.drop_last(), undo_all(deltas.last(), s))
    }
}

/// A client that applies operations locally at once and reconciles them
/// with the authoritative order of a server.
///
/// Its project is the server's project with the unconfirmed operations
/// performed on it, first to last. The server's project is the welcome
/// snapshot with every authoritative operation received so far performed on
/// it: remote operations, and the client's own once confirmed.
#[verifier::reject_recursive_types(O)]
pub struct CollabClient<R, O, Op> {
    context: Option<ProjectContext<R, O>>,
    keychain: KeyChain,
    key_request_sent: bool,
    unconfirmed: Vec<Op>,
    deltas: Vec<Vec<Delta<R, O>>>,
    outbox: Vec<Datum>,
    snapshot: Ghost<ProjectState<R, O>>,
    history: Ghost<Seq<Op>>,
}

impl<R, O, Op: Operation<R, O>> CollabClient<R, O, Op> {
    /// The project the client shows.
    pub closed spec fn state(&self) -> ProjectState<R, O> {
        self.context->0.state()
    }

    /// The project as the client joined it.
    pub closed spec fn snapshot(&self) -> ProjectState<R, O> {
        self.snapshot@
    }

    /// The authoritative operations received so far, in server order.
    pub closed spec fn history(&self) -> Seq<Op> {
        self.history@
    }

    /// The project as the server holds it.
    pub open spec fn server_state(&self) -> ProjectState<R, O> {
        run(self.history(), self.snapshot())
    }

    /// The local operations the server has not confirmed yet, oldest first.
    pub closed spec fn pending(&self) -> Seq<Op> {
        self.unconfirmed@
    }

    /// The recorded deltas of each unconfirmed operation.
    pub closed spec fn pending_deltas(&self) -> Seq<Seq<Delta<R, O>>> {
        Seq::new(self.deltas@.len(), |i: int| self.deltas@[i]@)
    }

    pub closed spec fn keys(&self) -> Seq<u64> {
        self.keychain.keys()
    }

    pub closed spec fn key_request_sent(&self) -> bool {
        self.key_request_sent
    }

    /// The messages waiting to be sent to the server.
    pub closed spec fn outbox(&self) -> Seq<Datum> {
        self.outbox@
    }

    pub closed spec fn wf(&self) -> bool {
        &&& self.context is Some
        &&& self.context->0.wf()
        &&& self.keychain.wf()
        &&& self.unconfirmed@.len() == self.deltas@.len()
        &&& self.state() == run(self.pending(), self.server_state())
        &&& forall|i: int|
            0 <= i < self.deltas@.len() ==> #[trigger] rewinds(
                self.pending(),
                self.pending_deltas(),
                self.server_state(),
                i,
            )
    }

    proof fn lemma_wf_frame(a: Self, b: Self)
        requires
            a.wf(),
            b.context == a.context,
            b.unconfirmed@ == a.unconfirmed@,
            b.deltas@ == a.deltas@,
            b.snapshot == a.snapshot,
            b.history == a.history,
            b.keychain.wf(),
        ensures
            b.wf(),
    {
        assert(b.pending_deltas() =~= a.pending_deltas());
        assert forall|i: int| 0 <= i < b.deltas@.len() implies #[trigger] rewinds(
            b.pending(),
            b.pending_deltas(),
            b.server_state(),
            i,
        ) by {
            assert(rewinds(a.pending(), a.pending_deltas(), a.server_state(), i));
        }
    }

    /// A client that joins with the given (decoded) welcome snapshot.
    pub fn collab(project: R, objects: ObjList<O>) -> (r: Self)
        requires
            objects.wf(),
        ensures
            r.wf(),
            r.state() == (ProjectState { project, objects: objects.objects() }),
            r.snapshot() == r.state(),
            r.history() == Seq::<Op>::empty(),
            r.pending() == Seq::<Op>::empty(),
            r.keys() == Seq::<u64>::empty(),
            r.keychain_has_room(),
            !r.key_request_sent(),
            r.outbox() == Seq::<Datum>::empty(),
    {
        let context = ProjectContext::new(project, objects);
        let ghost s = context.state();
        CollabClient {
            context: Some(context),
            keychain: KeyChain::new(),
            key_request_sent: false,
            unconfirmed: Vec::new(),
            deltas: Vec::new(),
            outbox: Vec::new(),
            snapshot: Ghost(s),
            history: Ghost(Seq::empty()),
        }
    }

    /// Performs a local operation at once, queues it as unconfirmed and
    /// sends it to the server.
    pub fn perform(&mut self, op: Op)
        requires
            old(self).wf(),
        ensures
            final(self).wf(),
            final(self).state() == op.effect(old(self).state()),
            final(self).pending() == old(self).pending().push(op),
            final(self).history() == old(self).history(),
            final(self).snapshot() == old(self).snapshot(),
            final(self).keys() == old(self).keys(),
            final(self).outbox() == old(self).outbox().push(final(self).outbox().last()),
            message_of(final(self).outbox().last()@) == Some(
                MessageView::Operation { name: op.name_view(), data: op.data_view() },
            ),
    {
        let context = self.context.take().unwrap();
        let mut recorder = Recorder::new(context);
        op.perform(&mut recorder);
        let (context, deltas) = recorder.finish();
        self.context = Some(context);
        let msg = Message::Operation { name: op.name(), data: op.serialize() };
        self.outbox.push(msg.to_datum());
        let ghost ops = self.unconfirmed@;
        let ghost server = self.server_state();
        let ghost old_deltas = self.pending_deltas();
        self.unconfirmed.push(op);
        self.deltas.push(deltas);
        proof {
            lemma_run_push(ops, op, server);
            assert(ops.push(op).take(ops.len() as int) =~= ops);
            assert(ops.push(op).take(ops.len() as int + 1) =~= ops.push(op));
            assert forall|i: int| 0 <= i < self.deltas@.len() implies #[trigger] rewinds(
                self.pending(),
                self.pending_deltas(),
                self.server_state(),
                i,
            ) by {
                if i < ops.len() {
                    assert(rewinds(old(self).pending(), old(self).pending_deltas(), old(self).server_state(), i));
                    assert(self.pending_deltas()[i] == old_deltas[i]);
                    assert(ops.push(op).take(i + 1) =~= ops.take(i + 1));
                    assert(ops.push(op).take(i) =~= ops.take(i));
                }
            }
        }
    }

    /// Performs an authoritative operation: rewinds the unconfirmed
    /// operations, performs it (its deltas are not kept: the server's order
    /// is final), then performs the unconfirmed operations again, recording
    /// fresh deltas for them.
    fn apply_authoritative(&mut self, op: Op)
        requires
            old(self).wf(),
        ensures
            final(self).wf(),
            final(self).history() == old(self).history().push(op),
            final(self).pending() == old(self).pending(),
            final(self).snapshot() == old(self).snapshot(),
            final(self).keys() == old(self).keys(),
            final(self).key_request_sent() == old(self).key_request_sent(),
            final(self).outbox() == old(self).outbox(),
    {
        let mut context = self.context.take().unwrap();
        let ghost ops = self.unconfirmed@;
        let ghost server = self.server_state();
        let ghost all = self.pending_deltas();
        proof {
            assert(ops.take(ops.len() as int) =~= ops);
            assert forall|i: int| 0 <= i < ops.len() implies rewinds(ops, all, server, i) by {
                assert(rewinds(old(self).pending(), old(self).pending_deltas(), old(self).server_state(), i));
            }
        }
        while self.deltas.len() > 0
            invariant
                context.wf(),
                self.history@ == old(self).history@,
                self.snapshot@ == old(self).snapshot@,
                self.keychain == old(self).keychain,
                self.key_request_sent == old(self).key_request_sent,
                self.outbox@ == old(self).outbox@,
                self.unconfirmed@ == ops,
                self.deltas@.len() <= ops.len(),
                all.len() == ops.len(),
                forall|i: int| 0 <= i < self.deltas@.len() ==> #[trigger] self.deltas@[i]@ == all[i],
                context.state() == run(ops.take(self.deltas@.len() as int), server),
                forall|i: int| 0 <= i < ops.len() ==> rewinds(ops, all, server, i),
            decreases self.deltas@.len(),
        {
            let mut ds = self.deltas.pop().unwrap();
            let n = self.deltas.len();
            let ghost target = run(ops.take(n as int), server);
            proof {
                assert(rewinds(ops, all, server, n as int));
                assert(ds@ == all[n as int]);
            }
            while ds.len() > 0
                invariant
                    context.wf(),
                    undo_all(ds@, context.state()) == target,
                decreases ds@.len(),
            {
                let ghost before = ds@;
                let d = ds.pop().unwrap();
                proof {
                    assert(before.drop_last() == ds@);
                    assert(before.last() == d);
                }
                d.perform(&mut context);
            }
        }
        proof {
            assert(ops.take(0) =~= Seq::<Op>::empty());
        }
        let mut recorder = Recorder::new(context);
        op.perform(&mut recorder);
        let (c, _authoritative) = recorder.finish();
        context = c;
        let ghost server2 = op.effect(server);
        proof {
            lemma_run_push(self.history@, op, self.snapshot@);
        }
        self.history = Ghost(self.history@.push(op));
        let mut i: usize = 0;
        while i < self.unconfirmed.len()
            invariant
                context.wf(),
                self.history@ == old(self).history@.push(op),
                self.snapshot@ == old(self).snapshot@,
                self.keychain == old(self).keychain,
                self.key_request_sent == old(self).key_request_sent,
                self.outbox@ == old(self).outbox@,
                server2 == op.effect(run(old(self).history@, old(self).snapshot@)),
                self.unconfirmed@ == ops,
                self.deltas@.len() == i,
                0 <= i <= ops.len(),
                context.state() == run(ops.take(i as int), server2),
                forall|j: int| 0 <= j < i ==> undo_all(#[trigger] self.deltas@[j]@, run(ops.take(j + 1), server2))
                    == run(ops.take(j), server2),
            decreases ops.len() - i,
        {
            let mut recorder = Recorder::new(context);
            self.unconfirmed[i].perform(&mut recorder);
            let (c, ds) = recorder.finish();
            context = c;
            proof {
                assert(ops.take(i as int + 1).drop_last() =~= ops.take(i as int));
                assert(ops.take(i as int + 1).last() == ops[i as int]);
            }
            self.deltas.push(ds);
            i += 1;
        }
        self.context = Some(context);
        proof {
            assert(ops.take(ops.len() as int) =~= ops);
            assert(self.server_state() == server2);
            assert forall|j: int| 0 <= j < self.deltas@.len() implies #[trigger] rewinds(
                self.pending(),
                self.pending_deltas(),
                self.server_state(),
                j,
            ) by {
                assert(self.pending_deltas()[j] == self.deltas@[j]@);
            }
        }
    }

    /// The server accepted the oldest unconfirmed operation: it becomes part
    /// of the server's project. Nothing happens when none is pending.
    fn confirm(&mut self)
        requires
            old(self).wf(),
        ensures
            final(self).wf(),
            final(self).state() == old(self).state(),
            old(self).pending().len() > 0 ==> final(self).history() == old(self).history().push(
                old(self).pending()[0],
            ) && final(self).pending() == old(self).pending().drop_first(),
            old(self).pending().len() == 0 ==> final(self).history() == old(self).history()
                && final(self).pending() == old(self).pending(),
            final(self).snapshot() == old(self).snapshot(),
            final(self).keys() == old(self).keys(),
            final(self).key_request_sent() == old(self).key_request_sent(),
            final(self).outbox() == old(self).outbox(),
    {
        if self.unconfirmed.len() == 0 {
            return;
        }
        let ghost ops = self.unconfirmed@;
        let ghost server = self.server_state();
        let ghost all = self.pending_deltas();
        let op = self.unconfirmed.remove(0);
        let _confirmed = self.deltas.remove(0);
        proof {
            lemma_run_push(self.history@, op, self.snapshot@);
            lemma_run_first(ops, server);
            assert(self.unconfirmed@ =~= ops.drop_first());
        }
        self.history = Ghost(self.history@.push(op));
        proof {
            let s2 = op.effect(server);
            assert(self.server_state() == s2);
            assert forall|i: int| 0 <= i < self.deltas@.len() implies #[trigger] rewinds(
                self.pending(),
                self.pending_deltas(),
                self.server_state(),
                i,
            ) by {
                assert(rewinds(old(self).pending(), old(self).pending_deltas(), old(self).server_state(), i + 1));
                assert(self.pending_deltas()[i] == all[i + 1]);
                lemma_run_first(ops.take(i + 2), server);
                lemma_run_first(ops.take(i + 1), server);
                assert(ops.take(i + 2).drop_first() =~= ops.drop_first().take(i + 1));
                assert(ops.take(i + 1).drop_first() =~= ops.drop_first().take(i));
                assert(ops.take(i + 2)[0] == ops[0]);
                assert(ops.take(i + 1)[0] == ops[0]);
            }
        }
    }

    /// Sends a key request when the key chain runs low and none is
    /// outstanding.
    pub fn request_keys(&mut self)
        requires
            old(self).wf(),
        ensures
            final(self).wf(),
            final(self).state() == old(self).state(),
            final(self).history() == old(self).history(),
            final(self).pending() == old(self).pending(),
            final(self).snapshot() == old(self).snapshot(),
            final(self).keys() == old(self).keys(),
            old(self).keys().len() < crate::keychain::LOW_WATER && !old(self).key_request_sent() ==> {
                &&& final(self).key_request_sent()
                &&& final(self).outbox().len() == old(self).outbox().len() + 1
                &&& final(self).outbox().drop_last() == old(self).outbox()
                &&& message_of(final(self).outbox().last()@) == Some(MessageView::KeyRequest)
            },
            !(old(self).keys().len() < crate::keychain::LOW_WATER && !old(self).key_request_sent()) ==> {
                &&& final(self).key_request_sent() == old(self).key_request_sent()
                &&& final(self).outbox() == old(self).outbox()
            },
    {
        if self.keychain.wants_keys() && !self.key_request_sent {
            self.outbox.push(Message::KeyRequest.to_datum());
            self.key_request_sent = true;
            proof {
                assert(self.outbox@.drop_last() =~= old(self).outbox@);
            }
        }
        proof {
            Self::lemma_wf_frame(*old(self), *self);
        }
    }

    /// Asks for more keys if the key chain runs low, then hands out its next
    /// key, or `None` when it is empty.
    pub fn next_key(&mut self) -> (r: Option<u64>)
        requires
            old(self).wf(),
        ensures
            final(self).wf(),
            final(self).state() == old(self).state(),
            final(self).history() == old(self).history(),
            final(self).pending() == old(self).pending(),
            old(self).keys().len() == 0 ==> r is None && final(self).keys() == old(self).keys(),
            old(self).keys().len() > 0 ==> r == Some(old(self).keys()[0]) && final(self).keys()
                == old(self).keys().drop_first(),
            old(self).keys().len() < crate::keychain::LOW_WATER && !old(self).key_request_sent()
                ==> final(self).key_request_sent() && message_of(final(self).outbox().last()@) == Some(
                MessageView::KeyRequest,
            ),
            !(old(self).keys().len() < crate::keychain::LOW_WATER && !old(self).key_request_sent())
                ==> final(self).key_request_sent() == old(self).key_request_sent() && final(self).outbox()
                == old(self).outbox(),
    {
        self.request_keys();
        let ghost mid = *self;
        let r = self.keychain.next_key();
        proof {
            Self::lemma_wf_frame(mid, *self);
        }
        r
    }

    /// Handles a message from the server. Returns `None`, and changes
    /// nothing, for a malformed message.
    pub fn receive_message(&mut self, msg: &Datum) -> (r: Option<()>)
        requires
            old(self).wf(),
        ensures
            final(self).wf(),
            final(self).snapshot() == old(self).snapshot(),
            final(self).outbox() == old(self).outbox(),
            r is None <==> message_of(msg@) is None,
            match message_of(msg@) {
                Some(MessageView::Confirm) => {
                    &&& final(self).state() == old(self).state()
                    &&& old(self).pending().len() > 0 ==> final(self).history() == old(self).history().push(
                        old(self).pending()[0],
                    ) && final(self).pending() == old(self).pending().drop_first()
                    &&& old(self).pending().len() == 0 ==> final(self).history() == old(self).history()
                        && final(self).pending() == old(self).pending()
                    &&& final(self).keys() == old(self).keys()
                    &&& final(self).key_request_sent() == old(self).key_request_sent()
                },
                Some(MessageView::Operation { name, data }) => {
                    &&& final(self).pending() == old(self).pending()
                    &&& final(self).keys() == old(self).keys()
                    &&& final(self).key_request_sent() == old(self).key_request_sent()
                    &&& match Op::decoded(name, data) {
                        Some(op) => final(self).history() == old(self).history().push(op),
                        None => final(self).history() == old(self).history() && final(self).state()
                            == old(self).state(),
                    }
                },
                Some(MessageView::KeyGrant { first, last }) => {
                    &&& final(self).state() == old(self).state()
                    &&& final(self).history() == old(self).history()
                    &&& final(self).pending() == old(self).pending()
                    &&& final(self).keys() == if first != 0 && last != 0 && first <= last
                        && old(self).keychain_has_room() {
                        old(self).keys() + crate::keychain::range_keys(first, last)
                    } else {
                        old(self).keys()
                    }
                    &&& first != 0 && last != 0 ==> !final(self).key_request_sent()
                    &&& !(first != 0 && last != 0) ==> final(self).key_request_sent() == old(
                        self,
                    ).key_request_sent()
                },
                _ => {
                    &&& final(self).state() == old(self).state()
                    &&& final(self).history() == old(self).history()
                    &&& final(self).pending() == old(self).pending()
                    &&& final(self).keys() == old(self).keys()
                    &&& final(self).key_request_sent() == old(self).key_request_sent()
                    &&& final(self).keychain_has_room() == old(self).keychain_has_room()
                },
            },
    {
        let m = match parse_message(msg) {
            Some(m) => m,
            None => return None,
        };
        match m {
            Message::Confirm => self.confirm(),
            Message::Operation { name, data } => {
                match Op::deserialize(&name, &data) {
                    Some(op) => self.apply_authoritative(op),
                    None => {},
                }
            },
            Message::KeyGrant { first, last } => {
                if first != 0 && last != 0 {
                    self.keychain.accept_keys(first, last);
                    self.key_request_sent = false;
                    proof {
                        Self::lemma_wf_frame(*old(self), *self);
                    }
                }
            },
            _ => {},
        }
        Some(())
    }

    /// Whether the key chain can take another granted range.
    pub closed spec fn keychain_has_room(&self) -> bool {
        self.keychain.n_ranges() < crate::keychain::MAX_RANGES
    }

    /// Hands out the messages waiting to be sent, oldest first.
    pub fn take_messages(&mut self) -> (r: Vec<Datum>)
        requires
            old(self).wf(),
        ensures
            final(self).wf(),
            r@ == old(self).outbox(),
            final(self).outbox() == Seq::<Datum>::empty(),
            final(self).state() == old(self).state(),
            final(self).history() == old(self).history(),
            final(self).pending() == old(self).pending(),
            final(self).keys() == old(self).keys(),
            final(self).snapshot() == old(self).snapshot(),
    {
        let mut r = Vec::new();
        std::mem::swap(&mut r, &mut self.outbox);
        proof {
            Self::lemma_wf_frame(*old(self), *self);
        }
        r
    }
}

impl<R: Serializable, O: Serializable, Op: Operation<R, O>> CollabClient<R, O, Op> {
    /// A client that joins with a welcome payload `{ id, project }`: the
    /// project is deep-decoded, with every object inlined in it. `None` when
    /// the payload has no project or the project does not decode.
    pub fn from_welcome(welcome: &Datum) -> (r: Option<Self>)
        ensures
            r is Some <==> (field_of(welcome@, seq!['p', 'r', 'o', 'j', 'e', 'c', 't']) matches Some(d) && exists|v: R|
                R::decodes_to(LoadMode::Deep, d, v)),
            r matches Some(c) ==> {
                &&& c.wf()
                &&& R::decodes_to(
                    LoadMode::Deep,
                    field_of(welcome@, seq!['p', 'r', 'o', 'j', 'e', 'c', 't'])->0,
                    c.state().project,
                )
                &&& c.snapshot() == c.state()
                &&& c.history() == Seq::<Op>::empty()
                &&& c.pending() == Seq::<Op>::empty()
                &&& c.keys() == Seq::<u64>::empty()
                &&& c.keychain_has_room()
                &&& !c.key_request_sent()
                &&& c.outbox() == Seq::<Datum>::empty()
            },
    {
        proof {
            reveal_strlit("project");
            assert("project"@ == seq!['p', 'r', 'o', 'j', 'e', 'c', 't']);
        }
        let key = "project".to_owned();
        let data = match rmpv_get(welcome, &key) {
            Some(d) => d,
            None => return None,
        };
        let mut loader = LoadingContext::new(LoadMode::Deep);
        let project = match R::load(data, &mut loader) {
            Some(p) => p,
            None => return None,
        };
        let mut objects = ObjList::new();
        let _drained = load_inline(&mut loader, &mut objects);
        Some(Self::collab(project, objects))
    }
}

impl<R, O, Op: Operation<R, O>> Client<R, O, Op> for CollabClient<R, O, Op> {
    open spec fn client_wf(&self) -> bool {
        self.wf()
    }

    open spec fn client_state(&self) -> ProjectState<R, O> {
        self.state()
    }

    fn project(&self) -> (r: &R) {
        self.context.as_ref().unwrap().project()
    }

    fn objects(&self) -> (r: &ObjList<O>) {
        self.context.as_ref().unwrap().obj_list()
    }

    fn perform_op(&mut self, op: Op) {
        self.perform(op);
    }
}

proof fn lemma_rewind_prefix<R, O, Op: Operation<R, O>>(
    ops: Seq<Op>,
    deltas: Seq<Seq<Delta<R, O>>>,
    server: ProjectState<R, O>,
    k: int,
)
    requires
        0 <= k <= ops.len(),
        deltas.len() == ops.len(),
        forall|i: int| 0 <= i < ops.len() ==> #[trigger] rewinds(ops, deltas, server, i),
    ensures
        rewind_all(deltas.take(k), run(ops.take(k), server)) == server,
    decreases k,
{
    if k == 0 {
        assert(ops.take(0) =~= Seq::<Op>::empty());
    } else {
        assert(rewinds(ops, deltas, server, k - 1));
        lemma_rewind_prefix(ops, deltas, server, k - 1);
        assert(deltas.take(k).drop_last() =~= deltas.take(k - 1));
        assert(deltas.take(k).last() == deltas[k - 1]);
    }
}

/// Undoing the recorded deltas of the unconfirmed operations, head to
/// tail, gives the server's project; performing the unconfirmed operations
/// on the server's project gives the client's project.
pub proof fn lemma_unconfirmed_deltas<R, O, Op: Operation<R, O>>(c: CollabClient<R, O, Op>)
    requires
        c.wf(),
    ensures
        rewind_all(c.pending_deltas(), c.state()) == c.server_state(),
        c.state() == run(c.pending(), c.server_state()),
{
    let ops = c.pending();
    let ds = c.pending_deltas();
    assert forall|i: int| 0 <= i < ops.len() implies #[trigger] rewinds(ops, ds, c.server_state(), i) by {
        assert(rewinds(c.pending(), c.pending_deltas(), c.server_state(), i));
    }
    lemma_rewind_prefix(ops, ds, c.server_state(), ops.len() as int);
    assert(ops.take(ops.len() as int) =~= ops);
    assert(ds.take(ds.len() as int) =~= ds);
}

/// Two clients that joined with the same snapshot, received the same
/// authoritative operations in the same order and have no unconfirmed
/// operation left hold equal projects, equal to the server's.
pub proof fn lemma_convergence<R, O, Op: Operation<R, O>>(a: CollabClient<R, O, Op>, b: CollabClient<R, O, Op>)
    requires
        a.wf(),
        b.wf(),
        a.snapshot() == b.snapshot(),
        a.history() == b.history(),
        a.pending().len() == 0,
        b.pending().len() == 0,
    ensures
        a.state() == b.state(),
        a.state() == a.server_state(),
{
}

} // verus!
