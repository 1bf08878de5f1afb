use vstd::prelude::*;

use crate::action::Client;
use crate::datum::{field_of, Datum, DatumView};
use crate::delta::ProjectState;
use crate::keyset::KeySet;
use crate::local::LocalClient;
use crate::message::{message_of, parse_message, Message, MessageView};
use crate::operation::Operation;
use crate::serialization::{deep, deep_enc, unemitted, EncodedView, Encoded, LoadMode, LoadingContext, Serializable};

verus! {

/// The identity of a client connected to a server.
#[derive(Clone, Copy, PartialEq, Eq, Structural, Hash, Debug, Default)]
pub struct ClientId(pub u64);

impl Serializable for ClientId {
    open spec fn encoding(&self) -> EncodedView {
        EncodedView::Plain(DatumView::UInt(self.0))
    }

    open spec fn decodes_to(mode: LoadMode, d: DatumView, v: Self) -> bool {
        d == DatumView::UInt(v.0)
    }

    proof fn lemma_round_trip(&self) {
    }

    fn store(&self) -> (r: Encoded) {
        Encoded::Plain(Datum::UInt(self.0))
    }

    fn load(data: &Datum, loader: &mut LoadingContext) -> (r: Option<Self>) {
        proof {
            old(loader).lemma_extends_refl();
        }
        match data {
            Datum::UInt(k) => Some(ClientId(*k)),
            _ => None,
        }
    }
}

/// The number of keys in each range granted to a client.
pub const KEY_GRANT_SIZE: u64 = 512;

/// `new` is `old` with messages appended that mean `msgs`, in order.
pub open spec fn appended(old: Seq<DatumView>, new: Seq<DatumView>, msgs: Seq<MessageView>) -> bool {
    &&& new.len() == old.len() + msgs.len()
    &&& new.take(old.len() as int) == old
    &&& forall|j: int| 0 <= j < msgs.len() ==> message_of(#[trigger] new[old.len() + j]) == Some(msgs[j])
}

/// The views of an outbox.
pub open spec fn outbox_view(v: Seq<Datum>) -> Seq<DatumView> {
    Seq::new(v.len(), |i: int| v[i]@)
}

/// Hosts the canonical project in a local client, relays operations between
/// connected clients in the order it receives them, and grants key ranges.
#[verifier::reject_recursive_types(O)]
pub struct Server<R, O> {
    client: LocalClient<R, O>,
    curr_client_id: u64,
    clients: Vec<(ClientId, Vec<Datum>)>,
}

impl<R, O> Server<R, O> {
    pub closed spec fn wf(&self) -> bool {
        &&& self.client.wf()
        &&& forall|i: int| 0 <= i < self.clients@.len() ==> (#[trigger] self.clients@[i]).0.0 < self.curr_client_id
        &&& forall|i: int, j: int|
            0 <= i < j < self.clients@.len() ==> (#[trigger] self.clients@[i]).0 != (#[trigger] self.clients@[j]).0
    }

    /// The canonical project.
    pub closed spec fn state(&self) -> ProjectState<R, O> {
        self.client.state()
    }

    /// The local client that holds the canonical project.
    pub closed spec fn client(&self) -> LocalClient<R, O> {
        self.client
    }

    /// The connected clients, each with the messages waiting for it.
    pub closed spec fn clients(&self) -> Seq<(ClientId, Seq<DatumView>)> {
        Seq::new(self.clients@.len(), |i: int| (self.clients@[i].0, outbox_view(self.clients@[i].1@)))
    }

    /// The identity the next client will get.
    pub closed spec fn next_id(&self) -> u64 {
        self.curr_client_id
    }

    pub fn new(client: LocalClient<R, O>) -> (r: Self)
        requires
            client.wf(),
        ensures
            r.wf(),
            r.client() == client,
            r.clients() == Seq::<(ClientId, Seq<DatumView>)>::empty(),
            r.next_id() == 1,
    {
        let r = Server { client, curr_client_id: 1, clients: Vec::new() };
        assert(r.clients() =~= Seq::<(ClientId, Seq<DatumView>)>::empty());
        r
    }

    pub fn project(&self) -> (r: &R)
        requires
            self.wf(),
        ensures
            *r == self.state().project,
    {
        self.client.project()
    }

    /// The local client that holds the canonical project, for persisting it.
    pub fn local_client(&mut self) -> (r: &mut LocalClient<R, O>)
        requires
            old(self).wf(),
        ensures
            *r == old(self).client(),
            final(r).wf() ==> final(self).wf(),
            final(self).client() == *final(r),
            final(self).clients() == old(self).clients(),
            final(self).next_id() == old(self).next_id(),
    {
        &mut self.client
    }

    /// Hands out the messages waiting for a client; `None` for a client that
    /// is not connected.
    pub fn get_msgs_to_send(&mut self, client: ClientId) -> (r: Option<Vec<Datum>>)
        requires
            old(self).wf(),
        ensures
            final(self).wf(),
            final(self).state() == old(self).state(),
            final(self).next_id() == old(self).next_id(),
            final(self).clients().len() == old(self).clients().len(),
            forall|i: int| 0 <= i < old(self).clients().len() ==> (#[trigger] final(self).clients()[i]).0 == old(self).clients()[i].0,
            (exists|i: int| 0 <= i < old(self).clients().len() && (#[trigger] old(self).clients()[i]).0 == client) <==> r is Some,
            forall|i: int| 0 <= i < old(self).clients().len() ==> (#[trigger] final(self).clients()[i]).1 == if old(self).clients()[i].0 == client {
                Seq::<DatumView>::empty()
            } else {
                old(self).clients()[i].1
            },
            r matches Some(v) ==> exists|i: int| 0 <= i < old(self).clients().len() && (#[trigger] old(self).clients()[i]).0 == client
                && outbox_view(v@) == old(self).clients()[i].1,
    {
        let mut i: usize = 0;
        while i < self.clients.len()
            invariant
                old(self).wf(),
                self.clients == old(self).clients,
                self.client == old(self).client,
                self.curr_client_id == old(self).curr_client_id,
                0 <= i <= self.clients@.len(),
                forall|j: int| 0 <= j < i ==> (#[trigger] self.clients@[j]).0 != client,
            decreases self.clients@.len() - i,
        {
            if self.clients[i].0 == client {
                let entry = &mut self.clients[i];
                let mut out = Vec::new();
                std::mem::swap(&mut out, &mut entry.1);
                proof {
                    assert(self.clients@.len() == old(self).clients@.len());
                    assert forall|j: int| 0 <= j < self.clients@.len() implies #[trigger] self.clients@[j].0 == old(self).clients@[j].0
                        && (j != i ==> self.clients@[j] == old(self).clients@[j]) by {}
                    assert(self.clients()[i as int].1 =~= Seq::<DatumView>::empty());
                    assert(old(self).clients()[i as int].0 == client);
                    assert forall|j: int| 0 <= j < old(self).clients().len() implies (#[trigger] self.clients()[j]).1 == if old(self).clients()[j].0 == client {
                        Seq::<DatumView>::empty()
                    } else {
                        old(self).clients()[j].1
                    } by {
                        if j != i {
                            if j < i {
                                assert(old(self).clients@[j].0 != client);
                            } else {
                                let a = old(self).clients@[i as int];
                                let b = old(self).clients@[j];
                                assert(a.0 != b.0);
                            }
                        }
                    }
                    assert(outbox_view(out@) == old(self).clients()[i as int].1);
                }
                return Some(out);
            }
            i += 1;
        }
        proof {
            assert forall|j: int| 0 <= j < old(self).clients().len() implies (#[trigger] old(self).clients()[j]).0 != client by {
                assert(old(self).clients@[j].0 != client);
            }
        }
        None
    }

    /// Appends a message to every connected client's outbox but `except`'s.
    fn broadcast(&mut self, msg: &Message, except: ClientId)
        requires
            old(self).wf(),
            !(msg is Ignored),
        ensures
            final(self).wf(),
            final(self).client() == old(self).client(),
            final(self).next_id() == old(self).next_id(),
            final(self).clients().len() == old(self).clients().len(),
            forall|i: int| 0 <= i < old(self).clients().len() ==> {
                &&& (#[trigger] final(self).clients()[i]).0 == old(self).clients()[i].0
                &&& appended(
                    old(self).clients()[i].1,
                    final(self).clients()[i].1,
                    if old(self).clients()[i].0 == except {
                        Seq::<MessageView>::empty()
                    } else {
                        seq![msg@]
                    },
                )
            },
    {
        let mut i: usize = 0;
        while i < self.clients.len()
            invariant
                !(msg is Ignored),
                self.client == old(self).client,
                self.curr_client_id == old(self).curr_client_id,
                self.clients@.len() == old(self).clients@.len(),
                0 <= i <= self.clients@.len(),
                forall|j: int| 0 <= j < self.clients@.len() ==> (#[trigger] self.clients@[j]).0 == old(self).clients@[j].0,
                forall|j: int| i <= j < self.clients@.len() ==> (#[trigger] self.clients@[j]).1 == old(self).clients@[j].1,
                forall|j: int| 0 <= j < i ==> appended(
                    outbox_view(old(self).clients@[j].1@),
                    outbox_view((#[trigger] self.clients@[j]).1@),
                    if old(self).clients@[j].0 == except {
                        Seq::<MessageView>::empty()
                    } else {
                        seq![msg@]
                    },
                ),
            decreases self.clients@.len() - i,
        {
            if self.clients[i].0 != except {
                let d = msg.to_datum();
                let ghost before = self.clients@;
                let entry = &mut self.clients[i];
                entry.1.push(d);
                proof {
                    let ob = outbox_view(old(self).clients@[i as int].1@);
                    let nb = outbox_view(self.clients@[i as int].1@);
                    assert(nb.take(ob.len() as int) =~= ob);
                    assert(nb[ob.len() as int + 0] == d@);
                    assert forall|j: int| 0 <= j < self.clients@.len() && j != i implies #[trigger] self.clients@[j] == before[j] by {}
                }
            } else {
                proof {
                    let ob = outbox_view(old(self).clients@[i as int].1@);
                    assert(ob.take(ob.len() as int) =~= ob);
                }
            }
            i += 1;
        }
        proof {
            assert forall|j: int| 0 <= j < old(self).clients().len() implies {
                &&& (#[trigger] self.clients()[j]).0 == old(self).clients()[j].0
                &&& appended(
                    old(self).clients()[j].1,
                    self.clients()[j].1,
                    if old(self).clients()[j].0 == except {
                        Seq::<MessageView>::empty()
                    } else {
                        seq![msg@]
                    },
                )
            } by {
                assert(appended(
                    outbox_view(old(self).clients@[j].1@),
                    outbox_view(self.clients@[j].1@),
                    if old(self).clients@[j].0 == except {
                        Seq::<MessageView>::empty()
                    } else {
                        seq![msg@]
                    },
                ));
            }
        }
    }

    /// Appends a message to the outbox of the client `to`, if connected.
    fn send(&mut self, to: ClientId, msg: &Message)
        requires
            old(self).wf(),
            !(msg is Ignored),
        ensures
            final(self).wf(),
            final(self).client() == old(self).client(),
            final(self).next_id() == old(self).next_id(),
            final(self).clients().len() == old(self).clients().len(),
            forall|i: int| 0 <= i < old(self).clients().len() ==> {
                &&& (#[trigger] final(self).clients()[i]).0 == old(self).clients()[i].0
                &&& appended(
                    old(self).clients()[i].1,
                    final(self).clients()[i].1,
                    if old(self).clients()[i].0 == to {
                        seq![msg@]
                    } else {
                        Seq::<MessageView>::empty()
                    },
                )
            },
    {
        let mut i: usize = 0;
        while i < self.clients.len()
            invariant
                old(self).wf(),
                !(msg is Ignored),
                self.clients == old(self).clients,
                self.client == old(self).client,
                self.curr_client_id == old(self).curr_client_id,
                0 <= i <= self.clients@.len(),
                forall|j: int| 0 <= j < i ==> (#[trigger] self.clients@[j]).0 != to,
            decreases self.clients@.len() - i,
        {
            if self.clients[i].0 == to {
                let d = msg.to_datum();
                let entry = &mut self.clients[i];
                entry.1.push(d);
                proof {
                    assert(self.clients@.len() == old(self).clients@.len());
                    assert(self.clients@[i as int].1@ == old(self).clients@[i as int].1@.push(d));
                    assert(self.clients@[i as int].0 == to);
                    assert forall|j: int| 0 <= j < old(self).clients().len() implies {
                        &&& (#[trigger] self.clients()[j]).0 == old(self).clients()[j].0
                        &&& appended(
                            old(self).clients()[j].1,
                            self.clients()[j].1,
                            if old(self).clients()[j].0 == to {
                                seq![msg@]
                            } else {
                                Seq::<MessageView>::empty()
                            },
                        )
                    } by {
                        let ob = old(self).clients()[j].1;
                        if j == i {
                            assert(old(self).clients()[j].0 == to);
                            assert(self.clients()[j].1 =~= ob.push(d@));
                            lemma_appended_one(ob, d@, msg@);
                        } else {
                            assert(self.clients@[j] == old(self).clients@[j]);
                            assert(ob.take(ob.len() as int) =~= ob);
                            if j > i {
                                let a = old(self).clients@[i as int];
                                let b = old(self).clients@[j];
                                assert(a.0 != b.0);
                            }
                        }
                    }
                }
                return;
            }
            i += 1;
        }
        proof {
            assert forall|j: int| 0 <= j < old(self).clients().len() implies {
                &&& (#[trigger] self.clients()[j]).0 == old(self).clients()[j].0
                &&& appended(
                    old(self).clients()[j].1,
                    self.clients()[j].1,
                    if old(self).clients()[j].0 == to {
                        seq![msg@]
                    } else {
                        Seq::<MessageView>::empty()
                    },
                )
            } by {
                let ob = old(self).clients()[j].1;
                assert(ob.take(ob.len() as int) =~= ob);
                assert(old(self).clients@[j].0 != to);
            }
        }
    }

    /// Handles a message from a connected client. An operation is performed
    /// on the canonical project and, when it decodes, relayed as received to
    /// every other client; the sender gets a confirmation. A key request is
    /// answered, to the sender only, with a grant of `KEY_GRANT_SIZE` keys
    /// from the counter. Returns `None`, and changes nothing, for a
    /// malformed message.
    pub fn receive_message<Op: Operation<R, O>>(&mut self, from: ClientId, msg: &Datum) -> (r: Option<()>)
        requires
            old(self).wf(),
        ensures
            final(self).wf(),
            final(self).next_id() == old(self).next_id(),
            final(self).client().project_ptr() == old(self).client().project_ptr(),
            r is None <==> message_of(msg@) is None,
            final(self).clients().len() == old(self).clients().len(),
            forall|i: int| 0 <= i < old(self).clients().len() ==> (#[trigger] final(self).clients()[i]).0 == old(self).clients()[i].0,
            match message_of(msg@) {
                Some(MessageView::Operation { name, data }) => {
                    &&& final(self).client().curr_key() == old(self).client().curr_key()
                    &&& match Op::decoded(name, data) {
                        Some(op) => final(self).state() == op.effect(old(self).state()),
                        None => final(self).state() == old(self).state(),
                    }
                    &&& forall|i: int| 0 <= i < old(self).clients().len() ==> appended(
                        old(self).clients()[i].1,
                        (#[trigger] final(self).clients()[i]).1,
                        (if old(self).clients()[i].0 != from && Op::decoded(name, data) is Some {
                            seq![MessageView::Operation { name, data }]
                        } else {
                            Seq::<MessageView>::empty()
                        }) + (if old(self).clients()[i].0 == from {
                            seq![MessageView::Confirm]
                        } else {
                            Seq::<MessageView>::empty()
                        }),
                    )
                },
                Some(MessageView::KeyRequest) => {
                    let first = old(self).client().curr_key();
                    &&& final(self).state() == old(self).state()
                    &&& first + KEY_GRANT_SIZE <= u64::MAX ==> final(self).client().curr_key() == first + KEY_GRANT_SIZE
                    &&& forall|i: int| 0 <= i < old(self).clients().len() ==> appended(
                        old(self).clients()[i].1,
                        (#[trigger] final(self).clients()[i]).1,
                        if old(self).clients()[i].0 == from && first + KEY_GRANT_SIZE <= u64::MAX {
                            seq![MessageView::KeyGrant { first, last: (first + KEY_GRANT_SIZE - 1) as u64 }]
                        } else {
                            Seq::<MessageView>::empty()
                        },
                    )
                },
                _ => {
                    &&& final(self).state() == old(self).state()
                    &&& final(self).client().curr_key() == old(self).client().curr_key()
                    &&& forall|i: int| 0 <= i < old(self).clients().len() ==> (#[trigger] final(self).clients()[i]).1
                        == old(self).clients()[i].1
                },
            },
    {
        let m = match parse_message(msg) {
            Some(m) => m,
            None => return None,
        };
        let ghost c0 = self.clients();
        match m {
            Message::Operation { name, data } => {
                let decoded = Op::deserialize(&name, &data);
                let is_some = decoded.is_some();
                match decoded {
                    Some(op) => {
                        self.client.perform_op(op);
                        let relay = Message::Operation { name, data };
                        self.broadcast(&relay, from);
                    },
                    None => {
                        proof {
                            assert forall|i: int| 0 <= i < c0.len() implies appended(
                                c0[i].1,
                                #[trigger] self.clients()[i].1,
                                Seq::<MessageView>::empty(),
                            ) by {
                                assert(c0[i].1.take(c0[i].1.len() as int) =~= c0[i].1);
                            }
                        }
                    },
                }
                let ghost c1 = self.clients();
                self.send(from, &Message::Confirm);
                proof {
                    assert forall|i: int| 0 <= i < c0.len() implies appended(
                        c0[i].1,
                        (#[trigger] self.clients()[i]).1,
                        (if c0[i].0 != from && is_some {
                            seq![m@]
                        } else {
                            Seq::<MessageView>::empty()
                        }) + (if c0[i].0 == from {
                            seq![MessageView::Confirm]
                        } else {
                            Seq::<MessageView>::empty()
                        }),
                    ) by {
                        let a = if c0[i].0 != from && is_some {
                            seq![m@]
                        } else {
                            Seq::<MessageView>::empty()
                        };
                        let b = if c0[i].0 == from {
                            seq![MessageView::Confirm]
                        } else {
                            Seq::<MessageView>::empty()
                        };
                        lemma_appended_trans(c0[i].1, c1[i].1, self.clients()[i].1, a, b);
                    }
                }
            },
            Message::KeyRequest => {
                match self.client.next_key_range(KEY_GRANT_SIZE) {
                    Some((first, last)) => {
                        self.send(from, &Message::KeyGrant { first, last });
                    },
                    None => {
                        proof {
                            assert forall|i: int| 0 <= i < c0.len() implies appended(
                                c0[i].1,
                                #[trigger] self.clients()[i].1,
                                Seq::<MessageView>::empty(),
                            ) by {
                                assert(c0[i].1.take(c0[i].1.len() as int) =~= c0[i].1);
                            }
                        }
                    },
                }
            },
            _ => {},
        }
        Some(())
    }
}

impl<R: Serializable, O: Serializable> Server<R, O> {
    /// Connects a new client: gives it the next identity and the welcome
    /// payload `{ id, project }`, where the project is deep-encoded. `None`
    /// once identities are exhausted.
    pub fn add_client(&mut self) -> (r: Option<(ClientId, Datum)>)
        requires
            old(self).wf(),
        ensures
            final(self).wf(),
            final(self).state() == old(self).state(),
            final(self).client() == old(self).client(),
            old(self).next_id() == u64::MAX ==> r is None && final(self).clients() == old(self).clients()
                && final(self).next_id() == old(self).next_id(),
            old(self).next_id() < u64::MAX ==> (r matches Some((id, welcome)) && {
                &&& id == ClientId(old(self).next_id())
                &&& final(self).next_id() == old(self).next_id() + 1
                &&& final(self).clients() == old(self).clients().push((id, Seq::<DatumView>::empty()))
                &&& field_of(welcome@, seq!['i', 'd']) == Some(DatumView::UInt(id.0))
                &&& field_of(welcome@, seq!['p', 'r', 'o', 'j', 'e', 'c', 't']) == Some(
                    deep_enc(
                        unemitted(old(self).state().objects, Set::<u64>::empty()).len(),
                        old(self).state().project.encoding(),
                        old(self).state().objects,
                        Set::<u64>::empty(),
                    ).0,
                )
            }),
    {
        if self.curr_client_id == u64::MAX {
            return None;
        }
        let id = ClientId(self.curr_client_id);
        self.curr_client_id = self.curr_client_id + 1;
        let ghost before = self.clients@;
        self.clients.push((id, Vec::new()));
        let mut stored = KeySet::new();
        let encoded = self.client.project().store();
        let project = deep(&encoded, self.client.objects(), &mut stored);
        let entries = vec![
            (Datum::Str("id".to_owned()), Datum::UInt(id.0)),
            (Datum::Str("project".to_owned()), project),
        ];
        proof {
            reveal_strlit("id");
            reveal_strlit("project");
            assert("id"@ == seq!['i', 'd']);
            assert("project"@ == seq!['p', 'r', 'o', 'j', 'e', 'c', 't']);
            crate::datum::lemma_entries_view(entries@);
            let ev = crate::datum::entries_view(entries@);
            assert(crate::datum::is_key(ev[0].0, "id"@));
            assert(!crate::datum::is_key(ev[0].0, "project"@));
            assert(ev.drop_first()[0] == ev[1]);
            assert(crate::datum::first_key_index(ev, "id"@) == Some(0int));
            assert(crate::datum::first_key_index(ev.drop_first(), "project"@) == Some(0int));
            assert(crate::datum::first_key_index(ev, "project"@) == Some(1int));
            assert(outbox_view(self.clients@[before.len() as int].1@) =~= Seq::<DatumView>::empty());
            assert(self.clients() =~= old(self).clients().push((id, Seq::<DatumView>::empty())));
            assert forall|i: int, j: int|
                0 <= i < j < self.clients@.len() implies (#[trigger] self.clients@[i]).0 != (#[trigger] self.clients@[j]).0 by {
                if j == before.len() {
                    assert(before[i] == self.clients@[i]);
                } else {
                    assert(before[i] == self.clients@[i] && before[j] == self.clients@[j]);
                }
            }
        }
        Some((id, Datum::Dict(entries)))
    }
}

proof fn lemma_appended_one(ob: Seq<DatumView>, x: DatumView, m: MessageView)
    requires
        message_of(x) == Some(m),
    ensures
        appended(ob, ob.push(x), seq![m]),
{
    assert(ob.push(x).take(ob.len() as int) =~= ob);
    assert forall|j: int| 0 <= j < 1 implies message_of(#[trigger] ob.push(x)[ob.len() + j]) == Some(seq![m][j]) by {
        assert(j == 0);
        assert(ob.push(x)[ob.len() + j] == x);
    }
}

proof fn lemma_appended_trans(s0: Seq<DatumView>, s1: Seq<DatumView>, s2: Seq<DatumView>, a: Seq<MessageView>, b: Seq<MessageView>)
    requires
        appended(s0, s1, a),
        appended(s1, s2, b),
    ensures
        appended(s0, s2, a + b),
{
    assert(s2.take(s0.len() as int) =~= s1.take(s0.len() as int));
    assert forall|j: int| 0 <= j < (a + b).len() implies message_of(#[trigger] s2[s0.len() + j]) == Some((a + b)[j]) by {
        if j < a.len() {
            assert(s2[s0.len() + j] == s1[s0.len() + j]);
        } else {
            assert(s2[s0.len() + j] == s2[s1.len() + (j - a.len())]);
        }
    }
}

} // verus!
