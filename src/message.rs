use vstd::prelude::*;

use crate::datum::{entries_view, is_key, lemma_entries_view, Datum, DatumView};

verus! {

/// A message of the wire protocol, as the library reads it.
#[derive(Debug, PartialEq)]
pub enum Message {
    /// Apply the named operation, with its serialized data.
    Operation { name: String, data: Datum },
    /// The server accepted the oldest unconfirmed operation of the receiver.
    Confirm,
    /// A client asks for a range of keys.
    KeyRequest,
    /// The server grants the keys `first..=last`.
    KeyGrant { first: u64, last: u64 },
    /// A well-formed message of a type this library does not act on.
    Ignored,
}

/// The mathematical model of a message.
pub enum MessageView {
    Operation { name: Seq<char>, data: DatumView },
    Confirm,
    KeyRequest,
    KeyGrant { first: u64, last: u64 },
    Ignored,
}

impl View for Message {
    type V = MessageView;

    open spec fn view(&self) -> MessageView {
        match self {
            Message::Operation { name, data } => MessageView::Operation { name: name@, data: data@ },
            Message::Confirm => MessageView::Confirm,
            Message::KeyRequest => MessageView::KeyRequest,
            Message::KeyGrant { first, last } => MessageView::KeyGrant { first: *first, last: *last },
            Message::Ignored => MessageView::Ignored,
        }
    }
}

/// The value of the last entry whose key is the string `name`: later
/// entries override earlier ones.
pub open spec fn last_field(entries: Seq<(DatumView, DatumView)>, name: Seq<char>) -> Option<DatumView>
    decreases entries.len(),
{
    if entries.len() == 0 {
        None
    } else if is_key(entries.last().0, name) {
        Some(entries.last().1)
    } else {
        last_field(entries.drop_last(), name)
    }
}

pub open spec fn is_str(d: DatumView) -> bool {
    d is Str
}

pub open spec fn is_uint(d: DatumView) -> bool {
    d is UInt
}

/// A message is well formed when it is a map whose keys are all strings,
/// whose `type` and `operation` entries hold strings and whose `first` and
/// `last` entries hold unsigned integers.
pub open spec fn well_formed_entries(entries: Seq<(DatumView, DatumView)>) -> bool {
    forall|i: int|
        0 <= i < entries.len() ==> {
            &&& (#[trigger] entries[i]).0 is Str
            &&& is_key(entries[i].0, seq!['t', 'y', 'p', 'e']) ==> is_str(entries[i].1)
            &&& is_key(entries[i].0, seq!['o', 'p', 'e', 'r', 'a', 't', 'i', 'o', 'n']) ==> is_str(entries[i].1)
            &&& is_key(entries[i].0, seq!['f', 'i', 'r', 's', 't']) ==> is_uint(entries[i].1)
            &&& is_key(entries[i].0, seq!['l', 'a', 's', 't']) ==> is_uint(entries[i].1)
        }
}

pub open spec fn str_or_empty(d: Option<DatumView>) -> Seq<char> {
    match d {
        Some(DatumView::Str(s)) => s,
        _ => Seq::empty(),
    }
}

pub open spec fn uint_or_zero(d: Option<DatumView>) -> u64 {
    match d {
        Some(DatumView::UInt(n)) => n,
        _ => 0,
    }
}

/// What a message means: `None` for a malformed one.
pub open spec fn message_of(msg: DatumView) -> Option<MessageView> {
    match msg {
        DatumView::Dict(e) => if !well_formed_entries(e) {
            None
        } else {
            let ty = str_or_empty(last_field(e, seq!['t', 'y', 'p', 'e']));
            if ty == seq!['c', 'o', 'n', 'f', 'i', 'r', 'm'] {
                Some(MessageView::Confirm)
            } else if ty == seq!['k', 'e', 'y', '_', 'r', 'e', 'q', 'u', 'e', 's', 't'] {
                Some(MessageView::KeyRequest)
            } else if ty == seq!['k', 'e', 'y', '_', 'g', 'r', 'a', 'n', 't'] {
                Some(
                    MessageView::KeyGrant {
                        first: uint_or_zero(last_field(e, seq!['f', 'i', 'r', 's', 't'])),
                        last: uint_or_zero(last_field(e, seq!['l', 'a', 's', 't'])),
                    },
                )
            } else if ty == seq!['o', 'p', 'e', 'r', 'a', 't', 'i', 'o', 'n'] && last_field(
                e,
                seq!['d', 'a', 't', 'a'],
            ) is Some {
                Some(MessageView::Operation { name: str_or_empty(last_field(e, seq!['o', 'p', 'e', 'r', 'a', 't', 'i', 'o', 'n'])), data: last_field(e, seq!['d', 'a', 't', 'a'])->0 })
            } else {
                Some(MessageView::Ignored)
            }
        },
        _ => None,
    }
}

/// Where the last entry named `name` among the first `i` entries stands, if any.
pub open spec fn tracks(idx: Option<usize>, ev: Seq<(DatumView, DatumView)>, i: int, name: Seq<char>) -> bool {
    match idx {
        Some(j) => j < i && last_field(ev.take(i), name) == Some(ev[j as int].1),
        None => last_field(ev.take(i), name) is None,
    }
}

pub open spec fn field_at(ev: Seq<(DatumView, DatumView)>, idx: Option<usize>) -> Option<DatumView> {
    match idx {
        Some(j) => Some(ev[j as int].1),
        None => None,
    }
}

proof fn lemma_last_field_step(ev: Seq<(DatumView, DatumView)>, i: int, name: Seq<char>)
    requires
        0 <= i < ev.len(),
    ensures
        last_field(ev.take(i + 1), name) == if is_key(ev[i].0, name) {
            Some(ev[i].1)
        } else {
            last_field(ev.take(i), name)
        },
{
    assert(ev.take(i + 1).drop_last() =~= ev.take(i));
}

fn key_is(k: &Datum, name: &str) -> (r: bool)
    ensures
        r == is_key(k@, name@),
{
    match k {
        Datum::Str(s) => {
            let n = name.to_owned();
            s.eq(&n)
        },
        _ => false,
    }
}

fn field_str_is(entries: &Vec<(Datum, Datum)>, idx: Option<usize>, lit: &str) -> (r: bool)
    requires
        idx is Some ==> idx->0 < entries@.len(),
    ensures
        r == (str_or_empty(field_at(entries_view(entries@), idx)) == lit@),
{
    proof {
        lemma_entries_view(entries@);
    }
    let n = lit.to_owned();
    match idx {
        Some(j) => match &entries[j].1 {
            Datum::Str(s) => s.eq(&n),
            _ => n.eq(&String::new()),
        },
        None => n.eq(&String::new()),
    }
}

fn field_uint(entries: &Vec<(Datum, Datum)>, idx: Option<usize>) -> (r: u64)
    requires
        idx is Some ==> idx->0 < entries@.len(),
    ensures
        r == uint_or_zero(field_at(entries_view(entries@), idx)),
{
    proof {
        lemma_entries_view(entries@);
    }
    match idx {
        Some(j) => match &entries[j].1 {
            Datum::UInt(n) => *n,
            _ => 0,
        },
        None => 0,
    }
}

/// Reads a wire message. Returns `None` for a malformed one: not a map, a
/// key that is not a string, or a `type`, `operation`, `first` or `last`
/// entry of the wrong kind. Unknown entries are ignored.
pub fn parse_message(msg: &Datum) -> (r: Option<Message>)
    ensures
        match r {
            Some(m) => message_of(msg@) == Some(m@),
            None => message_of(msg@) is None,
        },
{
    let entries = match msg {
        Datum::Dict(e) => e,
        _ => return None,
    };
    let ghost ev = entries_view(entries@);
    proof {
        lemma_entries_view(entries@);
        reveal_strlit("type");
        reveal_strlit("operation");
        reveal_strlit("data");
        reveal_strlit("first");
        reveal_strlit("last");
    }
    let mut ty: Option<usize> = None;
    let mut op: Option<usize> = None;
    let mut data: Option<usize> = None;
    let mut first: Option<usize> = None;
    let mut last: Option<usize> = None;
    let mut i: usize = 0;
    while i < entries.len()
        invariant
            msg@ == DatumView::Dict(ev),
            ev == entries_view(entries@),
            ev.len() == entries@.len(),
            forall|j: int| 0 <= j < ev.len() ==> #[trigger] ev[j] == (entries@[j].0@, entries@[j].1@),
            0 <= i <= ev.len(),
            well_formed_entries(ev.take(i as int)),
            "type"@ == seq!['t', 'y', 'p', 'e'],
            "operation"@ == seq!['o', 'p', 'e', 'r', 'a', 't', 'i', 'o', 'n'],
            "data"@ == seq!['d', 'a', 't', 'a'],
            "first"@ == seq!['f', 'i', 'r', 's', 't'],
            "last"@ == seq!['l', 'a', 's', 't'],
            tracks(ty, ev, i as int, "type"@),
            tracks(op, ev, i as int, "operation"@),
            tracks(data, ev, i as int, "data"@),
            tracks(first, ev, i as int, "first"@),
            tracks(last, ev, i as int, "last"@),
        decreases ev.len() - i,
    {
        let k = &entries[i].0;
        let v = &entries[i].1;
        let ok = match k {
            Datum::Str(_) => {
                if key_is(k, "type") || key_is(k, "operation") {
                    matches!(v, Datum::Str(_))
                } else if key_is(k, "first") || key_is(k, "last") {
                    matches!(v, Datum::UInt(_))
                } else {
                    true
                }
            },
            _ => false,
        };
        if !ok {
            proof {
                assert(ev[i as int] == (k@, v@));
                assert(!well_formed_entries(ev));
            }
            return None;
        }
        proof {
            lemma_last_field_step(ev, i as int, "type"@);
            lemma_last_field_step(ev, i as int, "operation"@);
            lemma_last_field_step(ev, i as int, "data"@);
            lemma_last_field_step(ev, i as int, "first"@);
            lemma_last_field_step(ev, i as int, "last"@);
            assert forall|j: int| 0 <= j < i + 1 implies ev.take(i + 1)[j] == ev[j] by {}
        }
        if key_is(k, "type") {
            ty = Some(i);
        }
        if key_is(k, "operation") {
            op = Some(i);
        }
        if key_is(k, "data") {
            data = Some(i);
        }
        if key_is(k, "first") {
            first = Some(i);
        }
        if key_is(k, "last") {
            last = Some(i);
        }
        i += 1;
    }
    proof {
        assert(ev.take(i as int) =~= ev);
        reveal_strlit("confirm");
        reveal_strlit("key_request");
        reveal_strlit("key_grant");
        reveal_strlit("operation");
        assert(well_formed_entries(ev));
        assert("confirm"@ == seq!['c', 'o', 'n', 'f', 'i', 'r', 'm']);
        assert("key_request"@ == seq!['k', 'e', 'y', '_', 'r', 'e', 'q', 'u', 'e', 's', 't']);
        assert("key_grant"@ == seq!['k', 'e', 'y', '_', 'g', 'r', 'a', 'n', 't']);
        assert("operation"@ == seq!['o', 'p', 'e', 'r', 'a', 't', 'i', 'o', 'n']);
        assert(last_field(ev, "type"@) == field_at(ev, ty));
        assert(last_field(ev, "data"@) == field_at(ev, data));
        assert(last_field(ev, "operation"@) == field_at(ev, op));
        assert(last_field(ev, "first"@) == field_at(ev, first));
        assert(last_field(ev, "last"@) == field_at(ev, last));
    }
    if field_str_is(entries, ty, "confirm") {
        Some(Message::Confirm)
    } else if field_str_is(entries, ty, "key_request") {
        Some(Message::KeyRequest)
    } else if field_str_is(entries, ty, "key_grant") {
        Some(Message::KeyGrant { first: field_uint(entries, first), last: field_uint(entries, last) })
    } else if field_str_is(entries, ty, "operation") && data.is_some() {
        let name = match op {
            Some(j) => match &entries[j].1 {
                Datum::Str(s) => s.clone(),
                _ => String::new(),
            },
            None => String::new(),
        };
        let d = entries[data.unwrap()].1.deep_clone();
        let m = Message::Operation { name, data: d };
        Some(m)
    } else {
        Some(Message::Ignored)
    }
}

fn str_datum(s: &str) -> (r: Datum)
    ensures
        r@ == DatumView::Str(s@),
{
    Datum::Str(s.to_owned())
}

impl Message {
    /// The wire form of the message: a map with a `type` entry and the
    /// entries of its kind.
    pub fn to_datum(&self) -> (r: Datum)
        ensures
            !(self is Ignored) ==> message_of(r@) == Some(self@),
    {
        proof {
            reveal_strlit("type");
            reveal_strlit("operation");
            reveal_strlit("data");
            reveal_strlit("confirm");
            reveal_strlit("key_request");
            reveal_strlit("key_grant");
            reveal_strlit("first");
            reveal_strlit("last");
            reveal_strlit("ignored");
            assert("type"@ == seq!['t', 'y', 'p', 'e']);
            assert("operation"@ == seq!['o', 'p', 'e', 'r', 'a', 't', 'i', 'o', 'n']);
            assert("data"@ == seq!['d', 'a', 't', 'a']);
            assert("confirm"@ == seq!['c', 'o', 'n', 'f', 'i', 'r', 'm']);
            assert("key_request"@ == seq!['k', 'e', 'y', '_', 'r', 'e', 'q', 'u', 'e', 's', 't']);
            assert("key_grant"@ == seq!['k', 'e', 'y', '_', 'g', 'r', 'a', 'n', 't']);
            assert("first"@ == seq!['f', 'i', 'r', 's', 't']);
            assert("last"@ == seq!['l', 'a', 's', 't']);
        }
        match self {
            Message::Operation { name, data } => {
                let entries = vec![
                    (str_datum("type"), str_datum("operation")),
                    (str_datum("operation"), Datum::Str(name.clone())),
                    (str_datum("data"), data.deep_clone()),
                ];
                proof {
                    let m = entries@;
                    lemma_entries_view(m);
                    let ev = entries_view(m);
                    assert(ev =~= seq![(m[0].0@, m[0].1@), (m[1].0@, m[1].1@), (m[2].0@, m[2].1@)]);
                    assert(ev.take(2).drop_last() =~= ev.take(1));
                    assert(ev.drop_last() =~= ev.take(2));
                    assert(ev.take(1).drop_last() =~= ev.take(0));
                    assert(ev[1].0 == DatumView::Str("operation"@));
                    assert(ev[2].0 == DatumView::Str("data"@));
                    assert(!is_key(ev[2].0, "type"@)) by {
                        assert("data"@[0] != "type"@[0]);
                    }
                    assert(!is_key(ev[1].0, "type"@)) by {
                        assert("operation"@.len() != "type"@.len());
                    }
                    assert(!is_key(ev[2].0, "operation"@)) by {
                        assert("data"@.len() != "operation"@.len());
                    }
                    assert(last_field(ev.take(1), "type"@) == Some(DatumView::Str("operation"@)));
                    assert(last_field(ev.take(2), "type"@) == Some(DatumView::Str("operation"@)));
                    assert(last_field(ev, "type"@) == Some(DatumView::Str("operation"@)));
                    assert(last_field(ev.take(2), "operation"@) == Some(DatumView::Str(name@)));
                    assert(last_field(ev, "operation"@) == Some(DatumView::Str(name@)));
                    assert(last_field(ev, "data"@) == Some(data@));
                }
                Datum::Dict(entries)
            },
            Message::Confirm => {
                let entries = vec![(str_datum("type"), str_datum("confirm"))];
                proof {
                    lemma_entries_view(entries@);
                    assert(entries_view(entries@).drop_last() =~= Seq::<(DatumView, DatumView)>::empty());
                }
                Datum::Dict(entries)
            },
            Message::KeyRequest => {
                let entries = vec![(str_datum("type"), str_datum("key_request"))];
                proof {
                    lemma_entries_view(entries@);
                    assert(entries_view(entries@).drop_last() =~= Seq::<(DatumView, DatumView)>::empty());
                }
                Datum::Dict(entries)
            },
            Message::KeyGrant { first, last } => {
                let entries = vec![
                    (str_datum("type"), str_datum("key_grant")),
                    (str_datum("first"), Datum::UInt(*first)),
                    (str_datum("last"), Datum::UInt(*last)),
                ];
                proof {
                    let m = entries@;
                    lemma_entries_view(m);
                    let ev = entries_view(m);
                    assert(ev =~= seq![(m[0].0@, m[0].1@), (m[1].0@, m[1].1@), (m[2].0@, m[2].1@)]);
                    assert(ev.take(2).drop_last() =~= ev.take(1));
                    assert(ev.drop_last() =~= ev.take(2));
                    assert(ev.take(1).drop_last() =~= ev.take(0));
                    assert(ev[1].0 == DatumView::Str("first"@));
                    assert(ev[2].0 == DatumView::Str("last"@));
                    assert(!is_key(ev[2].0, "type"@)) by {
                        assert("last"@[0] != "type"@[0]);
                    }
                    assert(!is_key(ev[1].0, "type"@)) by {
                        assert("first"@.len() != "type"@.len());
                    }
                    assert(!is_key(ev[2].0, "first"@)) by {
                        assert("last"@.len() != "first"@.len());
                    }
                    assert(last_field(ev.take(1), "type"@) == Some(DatumView::Str("key_grant"@)));
                    assert(last_field(ev.take(2), "type"@) == Some(DatumView::Str("key_grant"@)));
                    assert(last_field(ev, "type"@) == Some(DatumView::Str("key_grant"@)));
                    assert(last_field(ev.take(2), "first"@) == Some(DatumView::UInt(*first)));
                    assert(last_field(ev, "first"@) == Some(DatumView::UInt(*first)));
                    assert(last_field(ev, "last"@) == Some(DatumView::UInt(*last)));
                }
                Datum::Dict(entries)
            },
            Message::Ignored => Datum::Dict(vec![(str_datum("type"), str_datum("ignored"))]),
        }
    }
}

} // verus!
