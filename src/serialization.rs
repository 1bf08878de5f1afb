use vstd::prelude::*;

use crate::datum::{items_view, entries_view, lemma_entries_view, lemma_items_view, Datum, DatumView};
use crate::keyset::KeySet;
use crate::object::{ObjList, ObjPtr};

verus! {

/// The extension type that marks an owning reference already emitted
/// earlier in the same document.
pub const ALREADY_STORED_EXT: i8 = 123;

/// The encoding of a value before the owning references in it are resolved:
/// a self-describing value in which each owning reference is left as the key
/// of the object it owns. Structs are records of named fields.
#[derive(Debug, PartialEq)]
pub enum Encoded {
    Plain(Datum),
    Owned(u64),
    List(Vec<Encoded>),
    Record(Vec<(String, Encoded)>),
}

/// The mathematical model of an encoded value.
pub enum EncodedView {
    Plain(DatumView),
    Owned(u64),
    List(Seq<EncodedView>),
    Record(Seq<(Seq<char>, EncodedView)>),
}

impl View for Encoded {
    type V = EncodedView;

    open spec fn view(&self) -> EncodedView
        decreases self,
    {
        match self {
            Encoded::Plain(d) => EncodedView::Plain(d@),
            Encoded::Owned(k) => EncodedView::Owned(*k),
            Encoded::List(v) => EncodedView::List(enc_items_view(v@)),
            Encoded::Record(f) => EncodedView::Record(enc_fields_view(f@)),
        }
    }
}

pub open spec fn enc_items_view(s: Seq<Encoded>) -> Seq<EncodedView>
    decreases s,
{
    if s.len() == 0 {
        Seq::empty()
    } else {
        enc_items_view(s.drop_last()).push(s.last()@)
    }
}

pub open spec fn enc_fields_view(s: Seq<(String, Encoded)>) -> Seq<(Seq<char>, EncodedView)>
    decreases s,
{
    if s.len() == 0 {
        Seq::empty()
    } else {
        enc_fields_view(s.drop_last()).push((s.last().0@, s.last().1@))
    }
}

pub proof fn lemma_enc_items_view(s: Seq<Encoded>)
    ensures
        enc_items_view(s).len() == s.len(),
        forall|i: int| 0 <= i < s.len() ==> #[trigger] enc_items_view(s)[i] == s[i]@,
    decreases s.len(),
{
    reveal_with_fuel(enc_items_view, 2);
    if s.len() > 0 {
        lemma_enc_items_view(s.drop_last());
    }
}

pub proof fn lemma_enc_fields_view(s: Seq<(String, Encoded)>)
    ensures
        enc_fields_view(s).len() == s.len(),
        forall|i: int| 0 <= i < s.len() ==> #[trigger] enc_fields_view(s)[i] == (s[i].0@, s[i].1@),
    decreases s.len(),
{
    reveal_with_fuel(enc_fields_view, 2);
    if s.len() > 0 {
        lemma_enc_fields_view(s.drop_last());
    }
}

/// How owning references are read back.
pub enum LoadMode {
    /// Operation payloads: an owning reference is its key.
    Data,
    /// Records of the block store: an owning reference is its key, and the
    /// object is read from its own record.
    Shallow,
    /// A welcome snapshot: an owning reference is `[key, encoding]`, or
    /// `[key, marker]` where the document already holds the object.
    Deep,
}

/// A value that can be persisted and sent: objects and the root record of a
/// project, and the types of their fields.
pub trait Serializable: Sized {
    /// The encoding of the value, owning references left as keys.
    spec fn encoding(&self) -> EncodedView;

    /// Whether `d`, read in `mode`, stands for the value `v`.
    spec fn decodes_to(mode: LoadMode, d: DatumView, v: Self) -> bool;

    /// A value's shallow encoding reads back as the value.
    proof fn lemma_round_trip(&self)
        ensures
            Self::decodes_to(LoadMode::Shallow, shallow_view(self.encoding()), *self),
            Self::decodes_to(LoadMode::Data, shallow_view(self.encoding()), *self),
    ;

    fn store(&self) -> (r: Encoded)
        ensures
            r@ == self.encoding(),
    ;

    /// Reads a value back; owning references are read through the loader.
    /// `None` exactly when `data` stands for no value.
    fn load(data: &Datum, loader: &mut LoadingContext) -> (r: Option<Self>)
        requires
            old(loader).wf(),
        ensures
            final(loader).wf(),
            final(loader).extends(*old(loader)),
            match r {
                Some(v) => Self::decodes_to(old(loader).mode(), data@, v),
                None => forall|v: Self| !Self::decodes_to(old(loader).mode(), data@, v),
            },
    ;
}

/// The shallow encoding of an encoded value: an owning reference becomes the
/// key alone.
pub open spec fn shallow_view(e: EncodedView) -> DatumView
    decreases e,
{
    match e {
        EncodedView::Plain(d) => d,
        EncodedView::Owned(k) => DatumView::UInt(k),
        EncodedView::List(v) => DatumView::Array(shallow_items(v)),
        EncodedView::Record(f) => DatumView::Dict(shallow_fields(f)),
    }
}

pub open spec fn shallow_items(s: Seq<EncodedView>) -> Seq<DatumView>
    decreases s,
{
    if s.len() == 0 {
        Seq::empty()
    } else {
        shallow_items(s.drop_last()).push(shallow_view(s.last()))
    }
}

pub open spec fn shallow_fields(s: Seq<(Seq<char>, EncodedView)>) -> Seq<(DatumView, DatumView)>
    decreases s,
{
    if s.len() == 0 {
        Seq::empty()
    } else {
        shallow_fields(s.drop_last()).push((DatumView::Str(s.last().0), shallow_view(s.last().1)))
    }
}

pub proof fn lemma_shallow_items(s: Seq<EncodedView>)
    ensures
        shallow_items(s).len() == s.len(),
        forall|i: int| 0 <= i < s.len() ==> #[trigger] shallow_items(s)[i] == shallow_view(s[i]),
    decreases s.len(),
{
    reveal_with_fuel(shallow_items, 2);
    if s.len() > 0 {
        lemma_shallow_items(s.drop_last());
    }
}

pub proof fn lemma_shallow_fields(s: Seq<(Seq<char>, EncodedView)>)
    ensures
        shallow_fields(s).len() == s.len(),
        forall|i: int|
            0 <= i < s.len() ==> #[trigger] shallow_fields(s)[i] == (DatumView::Str(s[i].0), shallow_view(s[i].1)),
    decreases s.len(),
{
    reveal_with_fuel(shallow_fields, 2);
    if s.len() > 0 {
        lemma_shallow_fields(s.drop_last());
    }
}

/// The shallow encoding: owning references are written as their key; the
/// objects they own are stored as records of their own.
pub fn shallow(e: &Encoded) -> (r: Datum)
    ensures
        r@ == shallow_view(e@),
    decreases e,
{
    match e {
        Encoded::Plain(d) => d.deep_clone(),
        Encoded::Owned(k) => Datum::UInt(*k),
        Encoded::List(v) => {
            let mut r: Vec<Datum> = Vec::new();
            let mut i: usize = 0;
            while i < v.len()
                invariant
                    *e == Encoded::List(*v),
                    0 <= i <= v@.len(),
                    r@.len() == i,
                    forall|j: int| 0 <= j < i ==> #[trigger] r@[j]@ == shallow_view(v@[j]@),
                decreases v@.len() - i,
            {
                proof {
                    assert(decreases_to!(*e => e->List_0));
                    assert(decreases_to!(*v => v[i as int]));
                }
                let x = shallow(&v[i]);
                r.push(x);
                i += 1;
            }
            proof {
                lemma_items_view(r@);
                lemma_enc_items_view(v@);
                lemma_shallow_items(enc_items_view(v@));
                assert(items_view(r@) =~= shallow_items(enc_items_view(v@)));
            }
            Datum::Array(r)
        },
        Encoded::Record(f) => {
            let mut r: Vec<(Datum, Datum)> = Vec::new();
            let mut i: usize = 0;
            while i < f.len()
                invariant
                    *e == Encoded::Record(*f),
                    0 <= i <= f@.len(),
                    r@.len() == i,
                    forall|j: int|
                        0 <= j < i ==> (#[trigger] r@[j]).0@ == DatumView::Str(f@[j].0@) && r@[j].1@
                            == shallow_view(f@[j].1@),
                decreases f@.len() - i,
            {
                proof {
                    assert(decreases_to!(*e => e->Record_0));
                    assert(decreases_to!(*f => f[i as int]));
                    assert(decreases_to!(f[i as int] => f[i as int].1));
                }
                let x = shallow(&f[i].1);
                let name = f[i].0.clone();
                r.push((Datum::Str(name), x));
                i += 1;
            }
            proof {
                lemma_entries_view(r@);
                lemma_enc_fields_view(f@);
                lemma_shallow_fields(enc_fields_view(f@));
                assert(entries_view(r@) =~= shallow_fields(enc_fields_view(f@)));
            }
            Datum::Dict(r)
        },
    }
}

/// The marker written in place of an object that the document already
/// holds.
pub open spec fn sentinel_view() -> DatumView {
    DatumView::Ext(ALREADY_STORED_EXT, Seq::empty())
}

/// The keys of the objects present and not yet emitted.
pub open spec fn unemitted<O>(objects: Map<u64, O>, stored: Set<u64>) -> Set<u64> {
    objects.dom().difference(stored)
}

proof fn lemma_unemitted_shrinks<O>(objects: Map<u64, O>, stored: Set<u64>, k: u64)
    requires
        objects.dom().finite(),
        objects.dom().contains(k),
        !stored.contains(k),
    ensures
        unemitted(objects, stored.insert(k)).len() + 1 == unemitted(objects, stored).len(),
{
    assert(unemitted(objects, stored.insert(k)) =~= unemitted(objects, stored).remove(k));
}

proof fn lemma_unemitted_monotone<O>(objects: Map<u64, O>, a: Set<u64>, b: Set<u64>)
    requires
        objects.dom().finite(),
        a.subset_of(b),
    ensures
        unemitted(objects, b).len() <= unemitted(objects, a).len(),
{
    assert(unemitted(objects, b).subset_of(unemitted(objects, a)));
    vstd::set_lib::lemma_len_subset(unemitted(objects, b), unemitted(objects, a));
}

/// The deep encoding of `e` in a document that has already emitted the keys
/// `s0`, with the keys emitted once it is written. Each owning reference is
/// `[key, encoding of the object]` the first time the document meets its
/// key (`[key, nil]` for an object that is not present), and `[key, marker]`
/// after that. `n` bounds the nesting of inlined objects; the encoders pass
/// the number of objects not yet emitted, which is always enough.
pub open spec fn deep_enc<O: Serializable>(n: nat, e: EncodedView, objects: Map<u64, O>, s0: Set<u64>) -> (
    DatumView,
    Set<u64>,
)
    decreases n, e,
{
    match e {
        EncodedView::Plain(d) => (d, s0),
        EncodedView::Owned(k) => if s0.contains(k) {
            (DatumView::Array(seq![DatumView::UInt(k), sentinel_view()]), s0)
        } else if !objects.contains_key(k) || n == 0 {
            (DatumView::Array(seq![DatumView::UInt(k), DatumView::Nil]), s0.insert(k))
        } else {
            let inner = deep_enc((n - 1) as nat, objects[k].encoding(), objects, s0.insert(k));
            (DatumView::Array(seq![DatumView::UInt(k), inner.0]), inner.1)
        },
        EncodedView::List(items) => {
            let r = deep_items(n, items, objects, s0);
            (DatumView::Array(r.0), r.1)
        },
        EncodedView::Record(fields) => {
            let r = deep_fields(n, fields, objects, s0);
            (DatumView::Dict(r.0), r.1)
        },
    }
}

pub open spec fn deep_items<O: Serializable>(n: nat, items: Seq<EncodedView>, objects: Map<u64, O>, s0: Set<u64>) -> (
    Seq<DatumView>,
    Set<u64>,
)
    decreases n, items,
{
    if items.len() == 0 {
        (Seq::empty(), s0)
    } else {
        let p = deep_items(n, items.drop_last(), objects, s0);
        let q = deep_enc(n, items.last(), objects, p.1);
        (p.0.push(q.0), q.1)
    }
}

pub open spec fn deep_fields<O: Serializable>(
    n: nat,
    fields: Seq<(Seq<char>, EncodedView)>,
    objects: Map<u64, O>,
    s0: Set<u64>,
) -> (Seq<(DatumView, DatumView)>, Set<u64>)
    decreases n, fields,
{
    if fields.len() == 0 {
        (Seq::empty(), s0)
    } else {
        let p = deep_fields(n, fields.drop_last(), objects, s0);
        let q = deep_enc(n, fields.last().1, objects, p.1);
        (p.0.push((DatumView::Str(fields.last().0), q.0)), q.1)
    }
}

/// The deep encoding of one owning reference, in a document that has
/// already emitted the keys in `stored`; see `deep_enc`.
fn deep_owned_rec<O: Serializable>(key: u64, objects: &ObjList<O>, stored: &mut KeySet, Ghost(n): Ghost<nat>) -> (r: Datum)
    requires
        objects.wf(),
        old(stored).wf(),
        n >= unemitted(objects.objects(), old(stored).view_set()).len(),
    ensures
        final(stored).wf(),
        old(stored).view_set().subset_of(final(stored).view_set()),
        (r@, final(stored).view_set()) == deep_enc(n, EncodedView::Owned(key), objects.objects(), old(stored).view_set()),
    decreases n, EncodedView::Owned(key), 0nat,
{
    proof {
        objects.lemma_finite();
    }
    let ghost before = stored.view_set();
    let inner = if stored.contains(key) {
        Datum::Ext(ALREADY_STORED_EXT, Vec::new())
    } else {
        stored.insert(key);
        match objects.get(ObjPtr::from_key(key)) {
            Some(obj) => {
                let e = obj.store();
                proof {
                    lemma_unemitted_shrinks(objects.objects(), before, key);
                }
                deep_rec(&e, objects, stored, Ghost((n - 1) as nat))
            },
            None => Datum::Nil,
        }
    };
    let items = vec![Datum::UInt(key), inner];
    proof {
        lemma_items_view(items@);
        assert(items_view(items@) =~= seq![DatumView::UInt(key), inner@]);
    }
    Datum::Array(items)
}

fn deep_rec<O: Serializable>(e: &Encoded, objects: &ObjList<O>, stored: &mut KeySet, Ghost(n): Ghost<nat>) -> (r: Datum)
    requires
        objects.wf(),
        old(stored).wf(),
        n >= unemitted(objects.objects(), old(stored).view_set()).len(),
    ensures
        final(stored).wf(),
        old(stored).view_set().subset_of(final(stored).view_set()),
        (r@, final(stored).view_set()) == deep_enc(n, e@, objects.objects(), old(stored).view_set()),
    decreases n, e@, 1nat,
{
    proof {
        objects.lemma_finite();
    }
    match e {
        Encoded::Plain(d) => d.deep_clone(),
        Encoded::Owned(k) => deep_owned_rec(*k, objects, stored, Ghost(n)),
        Encoded::List(v) => {
            let ghost start = stored.view_set();
            let ghost items = enc_items_view(v@);
            proof {
                lemma_enc_items_view(v@);
            }
            let mut r: Vec<Datum> = Vec::new();
            let ghost mut outs: Seq<DatumView> = Seq::empty();
            let mut i: usize = 0;
            proof {
                assert(items.take(0) =~= Seq::<EncodedView>::empty());
            }
            while i < v.len()
                invariant
                    *e == Encoded::List(*v),
                    items == enc_items_view(v@),
                    items.len() == v@.len(),
                    forall|j: int| 0 <= j < v@.len() ==> #[trigger] items[j] == v@[j]@,
                    objects.wf(),
                    stored.wf(),
                    0 <= i <= v@.len(),
                    r@.len() == i,
                    outs.len() == i,
                    forall|j: int| 0 <= j < i ==> #[trigger] r@[j]@ == outs[j],
                    start.subset_of(stored.view_set()),
                    start == old(stored).view_set(),
                    n >= unemitted(objects.objects(), start).len(),
                    deep_items(n, items.take(i as int), objects.objects(), start) == (outs, stored.view_set()),
                decreases v@.len() - i,
            {
                proof {
                    assert(decreases_to!(e@ => e@->List_0));
                    assert(e@->List_0 == items);
                    assert(decreases_to!(items => items[i as int]));
                    objects.lemma_finite();
                    lemma_unemitted_monotone(objects.objects(), start, stored.view_set());
                }
                let ghost sm = stored.view_set();
                let x = deep_rec(&v[i], objects, stored, Ghost(n));
                r.push(x);
                proof {
                    let t = items.take(i + 1);
                    assert(t.drop_last() =~= items.take(i as int));
                    assert(t.last() == v@[i as int]@);
                    let o2 = outs.push(x@);
                    assert(o2.drop_last() =~= outs);
                    reveal_with_fuel(deep_items, 2);
                    assert(deep_items(n, t, objects.objects(), start) == (o2, stored.view_set()));
                    outs = o2;
                }
                i += 1;
            }
            proof {
                assert(items.take(i as int) =~= items);
                lemma_items_view(r@);
                assert(items_view(r@) =~= outs);
            }
            Datum::Array(r)
        },
        Encoded::Record(f) => {
            let ghost start = stored.view_set();
            let ghost fields = enc_fields_view(f@);
            proof {
                lemma_enc_fields_view(f@);
            }
            let mut r: Vec<(Datum, Datum)> = Vec::new();
            let ghost mut outs: Seq<(DatumView, DatumView)> = Seq::empty();
            let mut i: usize = 0;
            proof {
                assert(fields.take(0) =~= Seq::<(Seq<char>, EncodedView)>::empty());
            }
            while i < f.len()
                invariant
                    *e == Encoded::Record(*f),
                    fields == enc_fields_view(f@),
                    fields.len() == f@.len(),
                    forall|j: int| 0 <= j < f@.len() ==> #[trigger] fields[j] == (f@[j].0@, f@[j].1@),
                    objects.wf(),
                    stored.wf(),
                    0 <= i <= f@.len(),
                    r@.len() == i,
                    outs.len() == i,
                    forall|j: int| 0 <= j < i ==> #[trigger] outs[j] == (r@[j].0@, r@[j].1@),
                    start.subset_of(stored.view_set()),
                    start == old(stored).view_set(),
                    n >= unemitted(objects.objects(), start).len(),
                    deep_fields(n, fields.take(i as int), objects.objects(), start) == (outs, stored.view_set()),
                decreases f@.len() - i,
            {
                proof {
                    assert(decreases_to!(e@ => e@->Record_0));
                    assert(e@->Record_0 == fields);
                    assert(decreases_to!(fields => fields[i as int]));
                    assert(decreases_to!(fields[i as int] => fields[i as int].1));
                    objects.lemma_finite();
                    lemma_unemitted_monotone(objects.objects(), start, stored.view_set());
                }
                let ghost sm = stored.view_set();
                let x = deep_rec(&f[i].1, objects, stored, Ghost(n));
                let name = f[i].0.clone();
                r.push((Datum::Str(name), x));
                proof {
                    let t = fields.take(i + 1);
                    assert(t.drop_last() =~= fields.take(i as int));
                    assert(t.last() == (f@[i as int].0@, f@[i as int].1@));
                    let o2 = outs.push((DatumView::Str(name@), x@));
                    assert(o2.drop_last() =~= outs);
                    reveal_with_fuel(deep_fields, 2);
                    assert(deep_fields(n, t, objects.objects(), start) == (o2, stored.view_set()));
                    outs = o2;
                }
                i += 1;
            }
            proof {
                assert(fields.take(i as int) =~= fields);
                lemma_entries_view(r@);
                assert(entries_view(r@) =~= outs);
            }
            Datum::Dict(r)
        },
    }
}

/// The deep encoding of one owning reference: `[key, encoding]` the first
/// time the document meets the key, `[key, marker]` after that; `stored`
/// holds the keys already emitted.
pub fn deep_owned<O: Serializable>(key: u64, objects: &ObjList<O>, stored: &mut KeySet) -> (r: Datum)
    requires
        objects.wf(),
        old(stored).wf(),
    ensures
        final(stored).wf(),
        (r@, final(stored).view_set()) == deep_enc(
            unemitted(objects.objects(), old(stored).view_set()).len(),
            EncodedView::Owned(key),
            objects.objects(),
            old(stored).view_set(),
        ),
{
    deep_owned_rec(key, objects, stored, Ghost(unemitted(objects.objects(), stored.view_set()).len()))
}

/// The deep encoding: each owning reference is written inline, as
/// `[key, encoding]`, the first time the document meets its key, and as
/// `[key, marker]` after that, so that cycles and shared objects are
/// emitted once; see `deep_enc`. `stored` holds the keys already emitted.
pub fn deep<O: Serializable>(e: &Encoded, objects: &ObjList<O>, stored: &mut KeySet) -> (r: Datum)
    requires
        objects.wf(),
        old(stored).wf(),
    ensures
        final(stored).wf(),
        (r@, final(stored).view_set()) == deep_enc(
            unemitted(objects.objects(), old(stored).view_set()).len(),
            e@,
            objects.objects(),
            old(stored).view_set(),
        ),
{
    deep_rec(e, objects, stored, Ghost(unemitted(objects.objects(), stored.view_set()).len()))
}

/// What an owning reference reads as in `mode`: a key in data and shallow
/// mode, `[key, value]` in deep mode.
pub open spec fn owned_ref(mode: LoadMode, d: DatumView) -> Option<ObjPtr> {
    match mode {
        LoadMode::Deep => match d {
            DatumView::Array(items) => if items.len() >= 2 && items[0] is UInt {
                Some(ObjPtr { key: items[0]->UInt_0 })
            } else {
                None
            },
            _ => None,
        },
        _ => match d {
            DatumView::UInt(k) => Some(ObjPtr { key: k }),
            _ => None,
        },
    }
}

pub open spec fn is_sentinel(d: DatumView) -> bool {
    d is Ext && d->Ext_0 == ALREADY_STORED_EXT
}

/// The state of a decoding: which keys were met, and which objects remain
/// to be decoded.
pub struct LoadingContext {
    mode: LoadMode,
    loaded: KeySet,
    inline: Vec<(u64, Datum)>,
    wanted: Vec<u64>,
    met: Ghost<Seq<(u64, DatumView)>>,
}

impl LoadingContext {
    pub closed spec fn wf(&self) -> bool {
        &&& self.loaded.wf()
        &&& forall|j: int| 0 <= j < self.inline@.len() ==> self.loaded.view_set().contains(#[trigger] self.inline@[j].0)
        &&& forall|i: int| 0 <= i < self.met@.len() ==> self.loaded.view_set().contains(#[trigger] self.met@[i].0)
    }

    pub closed spec fn mode(&self) -> LoadMode {
        self.mode
    }

    /// The keys of the owning references met so far.
    pub closed spec fn loaded(&self) -> Set<u64> {
        self.loaded.view_set()
    }

    /// The inline objects met and not yet decoded.
    pub closed spec fn inline(&self) -> Seq<(u64, DatumView)> {
        Seq::new(self.inline@.len(), |i: int| (self.inline@[i].0, self.inline@[i].1@))
    }

    /// Every inline object met so far, decoded or not, in the order met.
    pub closed spec fn met(&self) -> Seq<(u64, DatumView)> {
        self.met@
    }

    /// The keys whose records must be read from the block store.
    pub closed spec fn wanted(&self) -> Seq<u64> {
        self.wanted@
    }

    /// `self` is `prev` after further reading: same mode, more keys met,
    /// and inline objects only added, each one logged as met.
    pub open spec fn extends(self, prev: LoadingContext) -> bool {
        &&& self.mode() == prev.mode()
        &&& prev.loaded().subset_of(self.loaded())
        &&& self.inline().len() >= prev.inline().len()
        &&& self.inline().take(prev.inline().len() as int) == prev.inline()
        &&& self.met() == prev.met() + self.inline().skip(prev.inline().len() as int)
    }

    pub proof fn lemma_extends_refl(self)
        ensures
            self.extends(self),
    {
        assert(self.inline().take(self.inline().len() as int) =~= self.inline());
        assert(self.met() + self.inline().skip(self.inline().len() as int) =~= self.met());
    }

    pub proof fn lemma_extends_trans(a: LoadingContext, b: LoadingContext, c: LoadingContext)
        requires
            b.extends(a),
            c.extends(b),
        ensures
            c.extends(a),
    {
        let la = a.inline().len() as int;
        let lb = b.inline().len() as int;
        assert(c.inline().take(la) =~= c.inline().take(lb).take(la));
        assert(c.inline().skip(la) =~= b.inline().skip(la) + c.inline().skip(lb)) by {
            assert(c.inline().take(lb) == b.inline());
        }
        assert(c.met() =~= a.met() + c.inline().skip(la));
    }

    pub fn new(mode: LoadMode) -> (r: LoadingContext)
        ensures
            r.wf(),
            r.mode() == mode,
            r.loaded() == Set::<u64>::empty(),
            r.inline() == Seq::<(u64, DatumView)>::empty(),
            r.met() == Seq::<(u64, DatumView)>::empty(),
            r.wanted() == Seq::<u64>::empty(),
    {
        let r = LoadingContext {
            mode,
            loaded: KeySet::new(),
            inline: Vec::new(),
            wanted: Vec::new(),
            met: Ghost(Seq::empty()),
        };
        assert(r.inline() =~= Seq::<(u64, DatumView)>::empty());
        r
    }

    /// Reads an owning reference; see `owned_ref`. In shallow mode a key
    /// met for the first time is wanted from the block store. In deep mode
    /// the first value met for a key, unless it is the already-stored
    /// marker, is kept for decoding, and the key recorded; a marker claims
    /// nothing, since the value may come later in the document.
    pub fn load_owned(&mut self, data: &Datum) -> (r: Option<ObjPtr>)
        requires
            old(self).wf(),
        ensures
            final(self).wf(),
            final(self).extends(*old(self)),
            r == owned_ref(old(self).mode(), data@),
            r is None || old(self).mode() is Data ==> final(self).loaded() == old(self).loaded()
                && final(self).inline() == old(self).inline() && final(self).wanted() == old(self).wanted(),
            r is Some && old(self).mode() is Shallow ==> final(self).loaded() == old(self).loaded().insert(
                r->0.key,
            ),
            r is Some && old(self).mode() is Shallow ==> final(self).inline() == old(self).inline()
                && final(self).wanted() == if old(self).loaded().contains(r->0.key) {
                old(self).wanted()
            } else {
                old(self).wanted().push(r->0.key)
            },
            r is Some && old(self).mode() is Deep ==> {
                let fresh = !old(self).loaded().contains(r->0.key) && !is_sentinel(data@->Array_0[1]);
                &&& final(self).wanted() == old(self).wanted()
                &&& final(self).loaded() == if fresh {
                    old(self).loaded().insert(r->0.key)
                } else {
                    old(self).loaded()
                }
                &&& final(self).inline() == if fresh {
                    old(self).inline().push((r->0.key, data@->Array_0[1]))
                } else {
                    old(self).inline()
                }
            },
    {
        proof {
            old(self).lemma_extends_refl();
        }
        match self.mode {
            LoadMode::Data => {
                assert(self.inline() == old(self).inline() && self.met() == old(self).met());
                assert(self.extends(*old(self)));
                match data {
                    Datum::UInt(k) => Some(ObjPtr::from_key(*k)),
                    _ => None,
                }
            },
            LoadMode::Shallow => match data {
                Datum::UInt(k) => {
                    if !self.loaded.contains(*k) {
                        self.loaded.insert(*k);
                        self.wanted.push(*k);
                        assert(old(self).loaded().subset_of(self.loaded()));
                    } else {
                        assert(old(self).loaded().insert(*k) =~= old(self).loaded());
                    }
                    assert(self.inline() == old(self).inline());
                    assert(self.met() == old(self).met());
                    assert(self.mode() == old(self).mode());
                    assert(self.extends(*old(self)));
                    Some(ObjPtr::from_key(*k))
                },
                _ => None,
            },
            LoadMode::Deep => match data {
                Datum::Array(items) => {
                    proof {
                        lemma_items_view(items@);
                    }
                    if items.len() < 2 {
                        return None;
                    }
                    let k = match &items[0] {
                        Datum::UInt(k) => *k,
                        _ => return None,
                    };
                    if self.loaded.contains(k) {
                        return Some(ObjPtr::from_key(k));
                    }
                    let sentinel = match &items[1] {
                        Datum::Ext(t, _) => *t == ALREADY_STORED_EXT,
                        _ => false,
                    };
                    if sentinel {
                        return Some(ObjPtr::from_key(k));
                    }
                    self.loaded.insert(k);
                    assert(old(self).loaded().subset_of(self.loaded()));
                    {
                        let v = items[1].deep_clone();
                        let ghost entry = (k, v@);
                        self.inline.push((k, v));
                        self.met = Ghost(self.met@.push(entry));
                        proof {
                            assert(self.inline() =~= old(self).inline().push(entry));
                            assert(self.inline().take(old(self).inline().len() as int) =~= old(self).inline());
                            assert(self.inline().skip(old(self).inline().len() as int) =~= seq![entry]);
                            assert(self.met() =~= old(self).met() + self.inline().skip(old(self).inline().len() as int));
                            assert(self.extends(*old(self)));
                        }
                    }
                    Some(ObjPtr::from_key(k))
                },
                _ => None,
            },
        }
    }

    /// Hands out the keys wanted from the block store so far.
    pub fn take_wanted(&mut self) -> (r: Vec<u64>)
        requires
            old(self).wf(),
        ensures
            final(self).wf(),
            r@ == old(self).wanted(),
            final(self).wanted() == Seq::<u64>::empty(),
            final(self).loaded() == old(self).loaded(),
            final(self).inline() == old(self).inline(),
            final(self).met() == old(self).met(),
            final(self).mode() == old(self).mode(),
    {
        let mut r = Vec::new();
        std::mem::swap(&mut r, &mut self.wanted);
        r
    }
}

/// The most inline objects decoded from one document.
pub const MAX_INLINE_OBJECTS: usize = 1000000000;

/// The inline object `e` is still waiting in `queue`, or it has been decoded
/// into `objects` if it decodes at all.
pub open spec fn pending_or_done<O: Serializable>(
    queue: Seq<(u64, DatumView)>,
    e: (u64, DatumView),
    objects: Map<u64, O>,
    mode: LoadMode,
) -> bool {
    queue.contains(e) || ((exists|v: O| O::decodes_to(mode, e.1, v)) ==> objects.contains_key(e.0))
}

/// Decodes the inline objects a loader has met, and those met while
/// decoding them, into `objects`. An object whose key is already present is
/// not replaced: each key stands for one object. Returns whether the queue
/// was drained, which it is unless `MAX_INLINE_OBJECTS` objects were
/// decoded; then every inline object met that decodes is present.
pub fn load_inline<O: Serializable>(loader: &mut LoadingContext, objects: &mut ObjList<O>) -> (drained: bool)
    requires
        old(loader).wf(),
        old(objects).wf(),
    ensures
        final(loader).wf(),
        final(objects).wf(),
        final(loader).mode() == old(loader).mode(),
        old(loader).loaded().subset_of(final(loader).loaded()),
        old(loader).met().len() <= final(loader).met().len(),
        final(loader).met().take(old(loader).met().len() as int) == old(loader).met(),
        forall|k: u64| #[trigger] old(objects).objects().contains_key(k) ==> final(objects).objects().contains_key(k)
            && final(objects).objects()[k] == old(objects).objects()[k],
        forall|k: u64| #[trigger] final(objects).objects().contains_key(k) ==> old(objects).objects().contains_key(k)
            || final(loader).loaded().contains(k),
        drained ==> final(loader).inline().len() == 0,
        drained ==> forall|i: int|
            old(loader).met().len() <= i < final(loader).met().len() ==> pending_or_done(
                Seq::<(u64, DatumView)>::empty(),
                #[trigger] final(loader).met()[i],
                final(objects).objects(),
                old(loader).mode(),
            ),
        drained ==> forall|i: int|
            0 <= i < old(loader).inline().len() ==> pending_or_done(
                Seq::<(u64, DatumView)>::empty(),
                #[trigger] old(loader).inline()[i],
                final(objects).objects(),
                old(loader).mode(),
            ),
{
    let mut n: usize = 0;
    let ghost orig = objects.objects();
    let ghost mode = loader.mode();
    let ghost met0 = loader.met();
    proof {
        assert(met0.take(met0.len() as int) =~= met0);
        assert forall|i: int| 0 <= i < old(loader).inline().len() implies loader.inline().contains(
            #[trigger] old(loader).inline()[i],
        ) by {
            assert(loader.inline()[i] == old(loader).inline()[i]);
        }
    }
    while n < MAX_INLINE_OBJECTS && loader.inline.len() > 0
        invariant
            loader.wf(),
            objects.wf(),
            loader.mode() == mode,
            mode == old(loader).mode(),
            orig == old(objects).objects(),
            met0 == old(loader).met(),
            old(loader).loaded().subset_of(loader.loaded()),
            met0.len() <= loader.met().len(),
            loader.met().take(met0.len() as int) == met0,
            forall|k: u64| #[trigger] orig.contains_key(k) ==> objects.objects().contains_key(k)
                && objects.objects()[k] == orig[k],
            forall|k: u64| #[trigger] objects.objects().contains_key(k) ==> orig.contains_key(k)
                || loader.loaded().contains(k),
            forall|i: int| met0.len() <= i < loader.met().len() ==> pending_or_done(
                loader.inline(),
                #[trigger] loader.met()[i],
                objects.objects(),
                mode,
            ),
            forall|i: int|
                0 <= i < old(loader).inline().len() ==> pending_or_done(
                    loader.inline(),
                    #[trigger] old(loader).inline()[i],
                    objects.objects(),
                    mode,
                ),
        decreases MAX_INLINE_OBJECTS - n,
    {
        let ghost q0 = loader.inline();
        let ghost met1 = loader.met();
        let ghost objs1 = objects.objects();
        let (k, d) = loader.inline.pop().unwrap();
        let ghost e = (k, d@);
        let ghost popped = loader.inline();
        let ghost l1 = *loader;
        proof {
            assert(popped =~= q0.drop_last());
            assert(q0.last() == e);
            assert(loader.loaded().contains(k)) by {
                assert(old(loader).loaded().subset_of(loader.loaded()));
            }
        }
        let r = O::load(&d, loader);
        match r {
            Some(o) => {
                objects.insert(ObjPtr::from_key(k), o);
            },
            None => {},
        }
        proof {
            let q2 = loader.inline();
            assert(q2.take(popped.len() as int) == popped);
            assert(loader.met() == met1 + q2.skip(popped.len() as int));
            assert(objects.objects().contains_key(k) || forall|v: O| !O::decodes_to(mode, d@, v));
            assert forall|x: (u64, DatumView)| q0.contains(x) && x != e implies q2.contains(x) by {
                let j = choose|j: int| 0 <= j < q0.len() && q0[j] == x;
                assert(j < popped.len());
                assert(q2[j] == popped[j]);
            }
            assert forall|i: int| met0.len() <= i < loader.met().len() implies pending_or_done(
                loader.inline(),
                #[trigger] loader.met()[i],
                objects.objects(),
                mode,
            ) by {
                let x = loader.met()[i];
                if i < met1.len() {
                    assert(x == met1[i]);
                    assert(pending_or_done(q0, met1[i], objs1, mode));
                    if x != e && q0.contains(x) {
                        assert(q2.contains(x));
                    }
                } else {
                    let t = i - met1.len();
                    assert(x == q2[popped.len() + t]);
                }
            }
            {
                assert forall|i: int| 0 <= i < old(loader).inline().len() implies pending_or_done(
                    loader.inline(),
                    #[trigger] old(loader).inline()[i],
                    objects.objects(),
                    mode,
                ) by {
                    let x = old(loader).inline()[i];
                    assert(pending_or_done(q0, x, objs1, mode));
                    if x != e && q0.contains(x) {
                        assert(q2.contains(x));
                    }
                }
            }
            assert(loader.met().take(met0.len() as int) =~= met0);
        }
        n += 1;
    }
    let drained = loader.inline.len() == 0;
    proof {
        if drained {
            assert(loader.inline() =~= Seq::<(u64, DatumView)>::empty());
        }
    }
    drained
}

/// An owning reference: the enclosing value owns the object's record for
/// persistence.
#[derive(Clone, Copy, PartialEq, Eq, Structural, Hash, Debug)]
pub struct ObjBox {
    ptr: ObjPtr,
}

impl ObjBox {
    pub fn new(ptr: ObjPtr) -> (r: ObjBox)
        ensures
            r.spec_ptr() == ptr,
    {
        ObjBox { ptr }
    }

    pub closed spec fn spec_ptr(&self) -> ObjPtr {
        self.ptr
    }

    #[verifier::when_used_as_spec(spec_ptr)]
    pub fn ptr(&self) -> (r: ObjPtr)
        ensures
            r == self.spec_ptr(),
    {
        self.ptr
    }
}

impl Serializable for ObjBox {
    open spec fn encoding(&self) -> EncodedView {
        EncodedView::Owned(self.spec_ptr().key)
    }

    open spec fn decodes_to(mode: LoadMode, d: DatumView, v: Self) -> bool {
        owned_ref(mode, d) == Some(v.spec_ptr())
    }

    proof fn lemma_round_trip(&self) {
    }

    fn store(&self) -> (r: Encoded) {
        Encoded::Owned(self.ptr.key)
    }

    fn load(data: &Datum, loader: &mut LoadingContext) -> (r: Option<Self>)
        ensures
            r is Some == owned_ref(old(loader).mode(), data@) is Some,
            r is Some ==> Some(r->0.spec_ptr()) == owned_ref(old(loader).mode(), data@),
    {
        match loader.load_owned(data) {
            Some(p) => Some(ObjBox::new(p)),
            None => None,
        }
    }
}

impl Serializable for ObjPtr {
    open spec fn encoding(&self) -> EncodedView {
        EncodedView::Plain(DatumView::UInt(self.key))
    }

    open spec fn decodes_to(mode: LoadMode, d: DatumView, v: Self) -> bool {
        d == DatumView::UInt(v.key)
    }

    proof fn lemma_round_trip(&self) {
    }

    fn store(&self) -> (r: Encoded) {
        Encoded::Plain(Datum::UInt(self.key))
    }

    fn load(data: &Datum, loader: &mut LoadingContext) -> (r: Option<Self>) {
        proof {
            old(loader).lemma_extends_refl();
        }
        match data {
            Datum::UInt(k) => Some(ObjPtr::from_key(*k)),
            _ => None,
        }
    }
}

impl Serializable for u64 {
    open spec fn encoding(&self) -> EncodedView {
        EncodedView::Plain(DatumView::UInt(*self))
    }

    open spec fn decodes_to(mode: LoadMode, d: DatumView, v: Self) -> bool {
        d == DatumView::UInt(v)
    }

    proof fn lemma_round_trip(&self) {
    }

    fn store(&self) -> (r: Encoded) {
        Encoded::Plain(Datum::UInt(*self))
    }

    fn load(data: &Datum, loader: &mut LoadingContext) -> (r: Option<Self>) {
        proof {
            old(loader).lemma_extends_refl();
        }
        match data {
            Datum::UInt(k) => Some(*k),
            _ => None,
        }
    }
}

/// The MessagePack form of a signed integer: non-negative numbers are
/// unsigned.
pub open spec fn int_view(n: int) -> DatumView {
    if n >= 0 {
        DatumView::UInt(n as u64)
    } else {
        DatumView::NegInt(n as i64)
    }
}

/// Whether `d` is an integer whose value is `n`.
pub open spec fn int_value(d: DatumView, n: int) -> bool {
    match d {
        DatumView::UInt(k) => n == k as int,
        DatumView::NegInt(k) => n == k as int,
        _ => false,
    }
}

fn int_datum(n: i64) -> (r: Datum)
    ensures
        r@ == int_view(n as int),
{
    if n >= 0 {
        Datum::UInt(n as u64)
    } else {
        Datum::NegInt(n)
    }
}

impl Serializable for bool {
    open spec fn encoding(&self) -> EncodedView {
        EncodedView::Plain(DatumView::Boolean(*self))
    }

    open spec fn decodes_to(mode: LoadMode, d: DatumView, v: Self) -> bool {
        d == DatumView::Boolean(v)
    }

    proof fn lemma_round_trip(&self) {
    }

    fn store(&self) -> (r: Encoded) {
        Encoded::Plain(Datum::Boolean(*self))
    }

    fn load(data: &Datum, loader: &mut LoadingContext) -> (r: Option<Self>) {
        proof {
            old(loader).lemma_extends_refl();
        }
        match data {
            Datum::Boolean(b) => Some(*b),
            _ => None,
        }
    }
}

impl Serializable for String {
    open spec fn encoding(&self) -> EncodedView {
        EncodedView::Plain(DatumView::Str(self@))
    }

    open spec fn decodes_to(mode: LoadMode, d: DatumView, v: Self) -> bool {
        d == DatumView::Str(v@)
    }

    proof fn lemma_round_trip(&self) {
    }

    fn store(&self) -> (r: Encoded) {
        Encoded::Plain(Datum::Str(self.clone()))
    }

    fn load(data: &Datum, loader: &mut LoadingContext) -> (r: Option<Self>) {
        proof {
            old(loader).lemma_extends_refl();
        }
        match data {
            Datum::Str(s) => Some(s.clone()),
            _ => None,
        }
    }
}

/// `vs` are the elements that the array items `items` decode to in `mode`,
/// in order; items that stand for no element are skipped.
pub open spec fn decodes_seq<T: Serializable>(mode: LoadMode, items: Seq<DatumView>, vs: Seq<T>) -> bool
    decreases items.len(),
{
    if items.len() == 0 {
        vs.len() == 0
    } else if exists|x: T| T::decodes_to(mode, items.last(), x) {
        vs.len() > 0 && T::decodes_to(mode, items.last(), vs.last()) && decodes_seq(
            mode,
            items.drop_last(),
            vs.drop_last(),
        )
    } else {
        decodes_seq(mode, items.drop_last(), vs)
    }
}

proof fn lemma_seq_round_trip<T: Serializable>(v: Seq<T>, k: int)
    requires
        0 <= k <= v.len(),
    ensures
        ({
            let s = Seq::new(v.len(), |i: int| v[i].encoding());
            &&& decodes_seq(LoadMode::Shallow, shallow_items(s).take(k), v.take(k))
            &&& decodes_seq(LoadMode::Data, shallow_items(s).take(k), v.take(k))
        }),
    decreases k,
{
    let s = Seq::new(v.len(), |i: int| v[i].encoding());
    lemma_shallow_items(s);
    if k == 0 {
        assert(shallow_items(s).take(0) =~= Seq::<DatumView>::empty());
    } else {
        lemma_seq_round_trip(v, k - 1);
        let x = v[k - 1];
        x.lemma_round_trip();
        let t = shallow_items(s).take(k);
        assert(t.drop_last() =~= shallow_items(s).take(k - 1));
        assert(t.last() == shallow_view(x.encoding()));
        assert(v.take(k).drop_last() =~= v.take(k - 1));
        assert(v.take(k).last() == x);
        assert(T::decodes_to(LoadMode::Shallow, t.last(), x));
        assert(T::decodes_to(LoadMode::Data, t.last(), x));
    }
}

impl<T: Serializable> Serializable for Vec<T> {
    open spec fn encoding(&self) -> EncodedView {
        EncodedView::List(Seq::new(self@.len(), |i: int| self@[i].encoding()))
    }

    /// A value that is not an array decodes as the empty vector.
    open spec fn decodes_to(mode: LoadMode, d: DatumView, v: Self) -> bool {
        match d {
            DatumView::Array(items) => decodes_seq(mode, items, v@),
            _ => v@.len() == 0,
        }
    }

    proof fn lemma_round_trip(&self) {
        let s = Seq::new(self@.len(), |i: int| self@[i].encoding());
        lemma_shallow_items(s);
        lemma_seq_round_trip(self@, self@.len() as int);
        assert(shallow_items(s).take(self@.len() as int) =~= shallow_items(s));
        assert(self@.take(self@.len() as int) =~= self@);
    }

    fn store(&self) -> (r: Encoded) {
        let mut items: Vec<Encoded> = Vec::new();
        let mut i: usize = 0;
        while i < self.len()
            invariant
                0 <= i <= self@.len(),
                items@.len() == i,
                forall|j: int| 0 <= j < i ==> #[trigger] items@[j]@ == self@[j].encoding(),
            decreases self@.len() - i,
        {
            items.push(self[i].store());
            i += 1;
        }
        proof {
            lemma_enc_items_view(items@);
            assert(enc_items_view(items@) =~= Seq::new(self@.len(), |j: int| self@[j].encoding()));
        }
        Encoded::List(items)
    }

    /// Elements that do not decode are skipped; a value that is not an
    /// array decodes as the empty vector.
    fn load(data: &Datum, loader: &mut LoadingContext) -> (r: Option<Self>) {
        let ghost mode = loader.mode();
        let mut out: Vec<T> = Vec::new();
        proof {
            old(loader).lemma_extends_refl();
        }
        match data {
            Datum::Array(items) => {
                let ghost iv = items_view(items@);
                proof {
                    lemma_items_view(items@);
                    assert(iv.take(0) =~= Seq::<DatumView>::empty());
                }
                let mut i: usize = 0;
                while i < items.len()
                    invariant
                        loader.wf(),
                        loader.extends(*old(loader)),
                        mode == old(loader).mode(),
                        *data == Datum::Array(*items),
                        iv == items_view(items@),
                        iv.len() == items@.len(),
                        forall|j: int| 0 <= j < items@.len() ==> #[trigger] iv[j] == items@[j]@,
                        0 <= i <= items@.len(),
                        decodes_seq(mode, iv.take(i as int), out@),
                    decreases items@.len() - i,
                {
                    let ghost l0 = *loader;
                    let x = T::load(&items[i], loader);
                    proof {
                        LoadingContext::lemma_extends_trans(*old(loader), l0, *loader);
                        let t = iv.take(i + 1);
                        assert(t.drop_last() =~= iv.take(i as int));
                        assert(t.last() == items@[i as int]@);
                    }
                    match x {
                        Some(x) => {
                            let ghost before = out@;
                            out.push(x);
                            proof {
                                assert(out@.drop_last() =~= before);
                            }
                        },
                        None => {},
                    }
                    i += 1;
                }
                proof {
                    assert(iv.take(i as int) =~= iv);
                }
            },
            _ => {},
        }
        Some(out)
    }
}

impl Serializable for u8 {
    open spec fn encoding(&self) -> EncodedView {
        EncodedView::Plain(DatumView::UInt(*self as u64))
    }

    open spec fn decodes_to(mode: LoadMode, d: DatumView, v: Self) -> bool {
        d == DatumView::UInt(v as u64)
    }

    proof fn lemma_round_trip(&self) {
    }

    fn store(&self) -> (r: Encoded) {
        Encoded::Plain(Datum::UInt(*self as u64))
    }

    /// An unsigned integer that does not fit is not a value.
    fn load(data: &Datum, loader: &mut LoadingContext) -> (r: Option<Self>) {
        proof {
            old(loader).lemma_extends_refl();
        }
        match data {
            Datum::UInt(k) => if *k <= u8::MAX as u64 {
                Some(*k as u8)
            } else {
                None
            },
            _ => None,
        }
    }
}

impl Serializable for u16 {
    open spec fn encoding(&self) -> EncodedView {
        EncodedView::Plain(DatumView::UInt(*self as u64))
    }

    open spec fn decodes_to(mode: LoadMode, d: DatumView, v: Self) -> bool {
        d == DatumView::UInt(v as u64)
    }

    proof fn lemma_round_trip(&self) {
    }

    fn store(&self) -> (r: Encoded) {
        Encoded::Plain(Datum::UInt(*self as u64))
    }

    /// An unsigned integer that does not fit is not a value.
    fn load(data: &Datum, loader: &mut LoadingContext) -> (r: Option<Self>) {
        proof {
            old(loader).lemma_extends_refl();
        }
        match data {
            Datum::UInt(k) => if *k <= u16::MAX as u64 {
                Some(*k as u16)
            } else {
                None
            },
            _ => None,
        }
    }
}

impl Serializable for u32 {
    open spec fn encoding(&self) -> EncodedView {
        EncodedView::Plain(DatumView::UInt(*self as u64))
    }

    open spec fn decodes_to(mode: LoadMode, d: DatumView, v: Self) -> bool {
        d == DatumView::UInt(v as u64)
    }

    proof fn lemma_round_trip(&self) {
    }

    fn store(&self) -> (r: Encoded) {
        Encoded::Plain(Datum::UInt(*self as u64))
    }

    /// An unsigned integer that does not fit is not a value.
    fn load(data: &Datum, loader: &mut LoadingContext) -> (r: Option<Self>) {
        proof {
            old(loader).lemma_extends_refl();
        }
        match data {
            Datum::UInt(k) => if *k <= u32::MAX as u64 {
                Some(*k as u32)
            } else {
                None
            },
            _ => None,
        }
    }
}

impl Serializable for i8 {
    open spec fn encoding(&self) -> EncodedView {
        EncodedView::Plain(int_view(*self as int))
    }

    open spec fn decodes_to(mode: LoadMode, d: DatumView, v: Self) -> bool {
        int_value(d, v as int)
    }

    proof fn lemma_round_trip(&self) {
    }

    fn store(&self) -> (r: Encoded) {
        Encoded::Plain(int_datum(*self as i64))
    }

    /// A signed integer that does not fit is not a value.
    fn load(data: &Datum, loader: &mut LoadingContext) -> (r: Option<Self>) {
        proof {
            old(loader).lemma_extends_refl();
        }
        match data {
            Datum::UInt(k) => if *k <= i8::MAX as u64 {
                Some(*k as i8)
            } else {
                None
            },
            Datum::NegInt(n) => if *n >= i8::MIN as i64 && *n <= i8::MAX as i64 {
                Some(*n as i8)
            } else {
                None
            },
            _ => None,
        }
    }
}

impl Serializable for i16 {
    open spec fn encoding(&self) -> EncodedView {
        EncodedView::Plain(int_view(*self as int))
    }

    open spec fn decodes_to(mode: LoadMode, d: DatumView, v: Self) -> bool {
        int_value(d, v as int)
    }

    proof fn lemma_round_trip(&self) {
    }

    fn store(&self) -> (r: Encoded) {
        Encoded::Plain(int_datum(*self as i64))
    }

    /// A signed integer that does not fit is not a value.
    fn load(data: &Datum, loader: &mut LoadingContext) -> (r: Option<Self>) {
        proof {
            old(loader).lemma_extends_refl();
        }
        match data {
            Datum::UInt(k) => if *k <= i16::MAX as u64 {
                Some(*k as i16)
            } else {
                None
            },
            Datum::NegInt(n) => if *n >= i16::MIN as i64 && *n <= i16::MAX as i64 {
                Some(*n as i16)
            } else {
                None
            },
            _ => None,
        }
    }
}

impl Serializable for i32 {
    open spec fn encoding(&self) -> EncodedView {
        EncodedView::Plain(int_view(*self as int))
    }

    open spec fn decodes_to(mode: LoadMode, d: DatumView, v: Self) -> bool {
        int_value(d, v as int)
    }

    proof fn lemma_round_trip(&self) {
    }

    fn store(&self) -> (r: Encoded) {
        Encoded::Plain(int_datum(*self as i64))
    }

    /// A signed integer that does not fit is not a value.
    fn load(data: &Datum, loader: &mut LoadingContext) -> (r: Option<Self>) {
        proof {
            old(loader).lemma_extends_refl();
        }
        match data {
            Datum::UInt(k) => if *k <= i32::MAX as u64 {
                Some(*k as i32)
            } else {
                None
            },
            Datum::NegInt(n) => if *n >= i32::MIN as i64 && *n <= i32::MAX as i64 {
                Some(*n as i32)
            } else {
                None
            },
            _ => None,
        }
    }
}

impl Serializable for i64 {
    open spec fn encoding(&self) -> EncodedView {
        EncodedView::Plain(int_view(*self as int))
    }

    open spec fn decodes_to(mode: LoadMode, d: DatumView, v: Self) -> bool {
        int_value(d, v as int)
    }

    proof fn lemma_round_trip(&self) {
    }

    fn store(&self) -> (r: Encoded) {
        Encoded::Plain(int_datum(*self as i64))
    }

    /// A signed integer that does not fit is not a value.
    fn load(data: &Datum, loader: &mut LoadingContext) -> (r: Option<Self>) {
        proof {
            old(loader).lemma_extends_refl();
        }
        match data {
            Datum::UInt(k) => if *k <= i64::MAX as u64 {
                Some(*k as i64)
            } else {
                None
            },
            Datum::NegInt(n) => if *n >= i64::MIN as i64 && *n <= i64::MAX as i64 {
                Some(*n as i64)
            } else {
                None
            },
            _ => None,
        }
    }
}

} // verus!
