use vstd::prelude::*;
use vstd::hash_map::HashMapWithView;

use crate::keyset::KeySet;

verus! {

broadcast use vstd::std_specs::hash::group_hash_axioms;

/// A copyable handle on an object: its key. Key `0` is the null key.
#[derive(Clone, Copy, PartialEq, Eq, Structural, Hash, Debug)]
pub struct ObjPtr {
    pub key: u64,
}

impl ObjPtr {
    pub fn from_key(key: u64) -> (r: ObjPtr)
        ensures
            r.key == key,
    {
        ObjPtr { key }
    }

    pub fn null() -> (r: ObjPtr)
        ensures
            r.key == 0,
    {
        ObjPtr { key: 0 }
    }
}

/// The objects of a project, by key, with the bookkeeping that incremental
/// persistence needs: which keys must be written again (`modified`) and
/// which stored records must be reclaimed (`to_delete`).
#[verifier::reject_recursive_types(O)]
pub struct ObjList<O> {
    objs: HashMapWithView<u64, O>,
    modified: KeySet,
    to_delete: KeySet,
}

impl<O> ObjList<O> {
    pub closed spec fn wf(&self) -> bool {
        self.modified.wf() && self.to_delete.wf() && self.objs@.dom().finite()
    }

    pub proof fn lemma_finite(&self)
        requires
            self.wf(),
        ensures
            self.objects().dom().finite(),
    {
    }

    /// The resident objects, by key.
    pub closed spec fn objects(&self) -> Map<u64, O> {
        self.objs@
    }

    /// Keys whose value must be persisted again.
    pub closed spec fn modified(&self) -> Set<u64> {
        self.modified.view_set()
    }

    /// Keys whose stored record must be reclaimed.
    pub closed spec fn to_delete(&self) -> Set<u64> {
        self.to_delete.view_set()
    }

    pub fn new() -> (r: ObjList<O>)
        ensures
            r.wf(),
            r.objects() == Map::<u64, O>::empty(),
            r.modified() == Set::<u64>::empty(),
            r.to_delete() == Set::<u64>::empty(),
    {
        ObjList { objs: HashMapWithView::new(), modified: KeySet::new(), to_delete: KeySet::new() }
    }

    /// Adds `obj` under `ptr`, unless an object with that key is already
    /// present (keys are immutable identities): then nothing changes.
    /// Returns whether the object was added. An added key is marked modified
    /// and is no longer due for deletion.
    pub fn insert(&mut self, ptr: ObjPtr, obj: O) -> (added: bool)
        requires
            old(self).wf(),
        ensures
            final(self).wf(),
            added == !old(self).objects().contains_key(ptr.key),
            added ==> final(self).objects() == old(self).objects().insert(ptr.key, obj),
            added ==> final(self).modified() == old(self).modified().insert(ptr.key),
            added ==> final(self).to_delete() == old(self).to_delete().remove(ptr.key),
            !added ==> *final(self) == *old(self),
    {
        if self.objs.contains_key(&ptr.key) {
            return false;
        }
        self.objs.insert(ptr.key, obj);
        self.modified.insert(ptr.key);
        self.to_delete.remove(ptr.key);
        true
    }

    /// Removes the object under `ptr` and hands it back; its key becomes due
    /// for deletion. Nothing changes when no such object is present.
    pub fn delete(&mut self, ptr: ObjPtr) -> (r: Option<O>)
        requires
            old(self).wf(),
        ensures
            final(self).wf(),
            r is Some <==> old(self).objects().contains_key(ptr.key),
            r is Some ==> {
                &&& r->0 == old(self).objects()[ptr.key]
                &&& final(self).objects() == old(self).objects().remove(ptr.key)
                &&& final(self).to_delete() == old(self).to_delete().insert(ptr.key)
                &&& final(self).modified() == old(self).modified()
            },
            r is None ==> final(self).objects() == old(self).objects() && final(self).modified()
                == old(self).modified() && final(self).to_delete() == old(self).to_delete(),
    {
        let r = self.objs.remove(&ptr.key);
        if r.is_some() {
            self.to_delete.insert(ptr.key);
        }
        r
    }

    pub fn get(&self, ptr: ObjPtr) -> (r: Option<&O>)
        ensures
            match r {
                Some(o) => self.objects().contains_key(ptr.key) && *o == self.objects()[ptr.key],
                None => !self.objects().contains_key(ptr.key),
            },
    {
        self.objs.get(&ptr.key)
    }

    pub fn contains(&self, ptr: ObjPtr) -> (r: bool)
        ensures
            r == self.objects().contains_key(ptr.key),
    {
        self.objs.contains_key(&ptr.key)
    }

    /// Replaces the value of the object under `ptr` and hands the previous
    /// value back; the key is marked modified. Nothing changes when no such
    /// object is present.
    pub fn replace(&mut self, ptr: ObjPtr, obj: O) -> (r: Option<O>)
        requires
            old(self).wf(),
        ensures
            final(self).wf(),
            match r {
                Some(prev) => {
                    &&& old(self).objects().contains_key(ptr.key)
                    &&& prev == old(self).objects()[ptr.key]
                    &&& final(self).objects() == old(self).objects().insert(ptr.key, obj)
                    &&& final(self).modified() == old(self).modified().insert(ptr.key)
                    &&& final(self).to_delete() == old(self).to_delete()
                },
                None => {
                    &&& !old(self).objects().contains_key(ptr.key)
                    &&& final(self).objects() == old(self).objects()
                    &&& final(self).modified() == old(self).modified()
                    &&& final(self).to_delete() == old(self).to_delete()
                },
            },
    {
        let prev = self.objs.remove(&ptr.key);
        match prev {
            Some(p) => {
                self.objs.insert(ptr.key, obj);
                self.modified.insert(ptr.key);
                proof {
                    assert(self.objs@ =~= old(self).objs@.insert(ptr.key, obj));
                }
                Some(p)
            },
            None => None,
        }
    }

    /// Hands out the keys marked modified, each once, and clears the mark.
    pub fn take_modified(&mut self) -> (r: Vec<u64>)
        requires
            old(self).wf(),
        ensures
            final(self).wf(),
            r@.to_set() == old(self).modified(),
            r@.no_duplicates(),
            final(self).modified() == Set::<u64>::empty(),
            final(self).objects() == old(self).objects(),
            final(self).to_delete() == old(self).to_delete(),
    {
        self.modified.take()
    }

    /// Hands out the keys due for deletion, each once, and clears the mark.
    pub fn take_to_delete(&mut self) -> (r: Vec<u64>)
        requires
            old(self).wf(),
        ensures
            final(self).wf(),
            r@.to_set() == old(self).to_delete(),
            r@.no_duplicates(),
            final(self).to_delete() == Set::<u64>::empty(),
            final(self).objects() == old(self).objects(),
            final(self).modified() == old(self).modified(),
    {
        self.to_delete.take()
    }

    /// Marks a key modified again, so that the next save writes it (after a
    /// failed write, say).
    pub fn mark_modified(&mut self, ptr: ObjPtr)
        requires
            old(self).wf(),
        ensures
            final(self).wf(),
            final(self).objects() == old(self).objects(),
            final(self).modified() == old(self).modified().insert(ptr.key),
            final(self).to_delete() == old(self).to_delete(),
    {
        self.modified.insert(ptr.key);
    }

    /// Marks a key due for deletion again (after a failed delete, say).
    pub fn mark_to_delete(&mut self, ptr: ObjPtr)
        requires
            old(self).wf(),
        ensures
            final(self).wf(),
            final(self).objects() == old(self).objects(),
            final(self).modified() == old(self).modified(),
            final(self).to_delete() == old(self).to_delete().insert(ptr.key),
    {
        self.to_delete.insert(ptr.key);
    }
}

} // verus!
