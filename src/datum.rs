use vstd::prelude::*;

verus! {

/// A self-describing value: the data model of every record, message and
/// payload the library produces or consumes (the MessagePack data model).
///
/// Integers follow MessagePack: a non-negative integer is always a `UInt`,
/// and `NegInt` holds only negative numbers. Floating-point numbers are not
/// part of this model; a decoded payload holds `Nil` in their place.
#[derive(Debug, PartialEq)]
pub enum Datum {
    Nil,
    Boolean(bool),
    UInt(u64),
    NegInt(i64),
    Str(String),
    Binary(Vec<u8>),
    Array(Vec<Datum>),
    Dict(Vec<(Datum, Datum)>),
    Ext(i8, Vec<u8>),
}

fn copy_bytes(b: &Vec<u8>) -> (r: Vec<u8>)
    ensures
        r@ == b@,
{
    let mut r: Vec<u8> = Vec::new();
    let mut i: usize = 0;
    while i < b.len()
        invariant
            0 <= i <= b@.len(),
            r@ == b@.take(i as int),
        decreases b@.len() - i,
    {
        r.push(b[i]);
        i += 1;
        assert(r@ =~= b@.take(i as int));
    }
    assert(b@.take(i as int) =~= b@);
    r
}

impl Datum {
    /// A copy of this value, equal to it.
    pub fn deep_clone(&self) -> (r: Datum)
        ensures
            r@ == self@,
        decreases self,
    {
        match self {
            Datum::Nil => Datum::Nil,
            Datum::Boolean(b) => Datum::Boolean(*b),
            Datum::UInt(n) => Datum::UInt(*n),
            Datum::NegInt(n) => Datum::NegInt(*n),
            Datum::Str(s) => Datum::Str(s.clone()),
            Datum::Binary(b) => Datum::Binary(copy_bytes(b)),
            Datum::Array(a) => {
                let mut r: Vec<Datum> = Vec::new();
                let mut i: usize = 0;
                while i < a.len()
                    invariant
                        *self == Datum::Array(*a),
                        0 <= i <= a@.len(),
                        r@.len() == i,
                        forall|j: int| 0 <= j < i ==> #[trigger] r@[j]@ == a@[j]@,
                    decreases a@.len() - i,
                {
                    proof {
                        assert(decreases_to!(*self => self->Array_0));
                        assert(decreases_to!(*a => a[i as int]));
                    }
                    r.push(a[i].deep_clone());
                    i += 1;
                }
                proof {
                    lemma_items_view(r@);
                    lemma_items_view(a@);
                    assert(items_view(r@) =~= items_view(a@));
                }
                Datum::Array(r)
            },
            Datum::Dict(m) => {
                let mut r: Vec<(Datum, Datum)> = Vec::new();
                let mut i: usize = 0;
                while i < m.len()
                    invariant
                        *self == Datum::Dict(*m),
                        0 <= i <= m@.len(),
                        r@.len() == i,
                        forall|j: int| 0 <= j < i ==> #[trigger] r@[j].0@ == m@[j].0@ && r@[j].1@ == m@[j].1@,
                    decreases m@.len() - i,
                {
                    proof {
                        assert(decreases_to!(*self => self->Dict_0));
                        assert(decreases_to!(*m => m[i as int]));
                        assert(decreases_to!(m[i as int] => m[i as int].0));
                    }
                    let k = m[i].0.deep_clone();
                    let v = m[i].1.deep_clone();
                    r.push((k, v));
                    i += 1;
                }
                proof {
                    lemma_entries_view(r@);
                    lemma_entries_view(m@);
                    assert(entries_view(r@) =~= entries_view(m@));
                }
                Datum::Dict(r)
            },
            Datum::Ext(t, b) => Datum::Ext(*t, copy_bytes(b)),
        }
    }
}

/// The mathematical model of a value: byte strings, strings and sequences
/// are replaced by their views.
pub enum DatumView {
    Nil,
    Boolean(bool),
    UInt(u64),
    NegInt(i64),
    Str(Seq<char>),
    Binary(Seq<u8>),
    Array(Seq<DatumView>),
    Dict(Seq<(DatumView, DatumView)>),
    Ext(i8, Seq<u8>),
}

impl View for Datum {
    type V = DatumView;

    open spec fn view(&self) -> DatumView
        decreases self,
    {
        match self {
            Datum::Nil => DatumView::Nil,
            Datum::Boolean(b) => DatumView::Boolean(*b),
            Datum::UInt(n) => DatumView::UInt(*n),
            Datum::NegInt(n) => DatumView::NegInt(*n),
            Datum::Str(s) => DatumView::Str(s@),
            Datum::Binary(b) => DatumView::Binary(b@),
            Datum::Array(a) => DatumView::Array(items_view(a@)),
            Datum::Dict(m) => DatumView::Dict(entries_view(m@)),
            Datum::Ext(t, b) => DatumView::Ext(*t, b@),
        }
    }
}

/// Whether `k` is a string key whose characters are `name`.
pub open spec fn is_key(k: DatumView, name: Seq<char>) -> bool {
    match k {
        DatumView::Str(s) => s == name,
        _ => false,
    }
}

/// The index of the first entry of `entries` whose key is the string `name`.
pub open spec fn first_key_index(entries: Seq<(DatumView, DatumView)>, name: Seq<char>) -> Option<int>
    decreases entries.len(),
{
    if entries.len() == 0 {
        None
    } else if is_key(entries[0].0, name) {
        Some(0)
    } else {
        match first_key_index(entries.drop_first(), name) {
            Some(i) => Some(i + 1),
            None => None,
        }
    }
}

/// The value stored under the string key `name` in a map value: the first
/// such entry wins. `None` when `v` is not a map or has no such key.
pub open spec fn field_of(v: DatumView, name: Seq<char>) -> Option<DatumView> {
    match v {
        DatumView::Dict(entries) => match first_key_index(entries, name) {
            Some(i) => Some(entries[i].1),
            None => None,
        },
        _ => None,
    }
}

proof fn lemma_first_key_index(entries: Seq<(DatumView, DatumView)>, name: Seq<char>, n: int)
    requires
        0 <= n <= entries.len(),
        forall|j: int| 0 <= j < n ==> !is_key(#[trigger] entries[j].0, name),
    ensures
        n < entries.len() && is_key(entries[n].0, name) ==> first_key_index(entries, name)
            == Some(n),
        n == entries.len() ==> first_key_index(entries, name) == None::<int>,
    decreases n,
{
    if n > 0 {
        let rest = entries.drop_first();
        assert forall|j: int| 0 <= j < n - 1 implies !is_key(#[trigger] rest[j].0, name) by {
            assert(rest[j] == entries[j + 1]);
        }
        lemma_first_key_index(rest, name, n - 1);
        assert(!is_key(entries[0].0, name));
    }
}

/// The views of the items of an array value.
pub open spec fn items_view(a: Seq<Datum>) -> Seq<DatumView>
    decreases a,
{
    if a.len() == 0 {
        Seq::empty()
    } else {
        items_view(a.drop_last()).push(a.last()@)
    }
}

pub proof fn lemma_items_view(a: Seq<Datum>)
    ensures
        items_view(a).len() == a.len(),
        forall|i: int| 0 <= i < a.len() ==> #[trigger] items_view(a)[i] == a[i]@,
    decreases a.len(),
{
    if a.len() > 0 {
        lemma_items_view(a.drop_last());
        assert(items_view(a) == items_view(a.drop_last()).push(a.last()@));
    }
}

pub proof fn lemma_entries_view(m: Seq<(Datum, Datum)>)
    ensures
        entries_view(m).len() == m.len(),
        forall|i: int| 0 <= i < m.len() ==> #[trigger] entries_view(m)[i] == (m[i].0@, m[i].1@),
    decreases m.len(),
{
    reveal_with_fuel(entries_view, 2);
    if m.len() > 0 {
        lemma_entries_view(m.drop_last());
        assert(entries_view(m) == entries_view(m.drop_last()).push((m.last().0@, m.last().1@)));
    }
}

/// The views of the entries of a map value.
pub open spec fn entries_view(m: Seq<(Datum, Datum)>) -> Seq<(DatumView, DatumView)>
    decreases m,
{
    if m.len() == 0 {
        Seq::empty()
    } else {
        entries_view(m.drop_last()).push((m.last().0@, m.last().1@))
    }
}

fn key_matches(k: &Datum, name: &String) -> (r: bool)
    ensures
        r == is_key(k@, name@),
{
    match k {
        Datum::Str(s) => s.eq(name),
        _ => false,
    }
}

/// Looks up the string key `key` in a map value (the first matching entry).
pub fn rmpv_get<'v>(value: &'v Datum, key: &String) -> (r: Option<&'v Datum>)
    ensures
        match r {
            Some(f) => field_of(value@, key@) == Some(f@),
            None => field_of(value@, key@) is None,
        },
{
    match value {
        Datum::Dict(entries) => {
            let mut i: usize = 0;
            while i < entries.len()
                invariant
                    *value == Datum::Dict(*entries),
                    0 <= i <= entries@.len(),
                    forall|j: int| 0 <= j < i ==> !is_key(#[trigger] entries@[j].0@, key@),
                decreases entries@.len() - i,
            {
                if key_matches(&entries[i].0, key) {
                    proof {
                        lemma_entries_view(entries@);
                        lemma_first_key_index(entries_view(entries@), key@, i as int);
                    }
                    return Some(&entries[i].1);
                }
                i += 1;
            }
            proof {
                lemma_entries_view(entries@);
                lemma_first_key_index(entries_view(entries@), key@, i as int);
            }
            None
        },
        _ => None,
    }
}

} // verus!
