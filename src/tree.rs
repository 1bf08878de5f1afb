use vstd::prelude::*;

use crate::delta::{Delta, ProjectState, Recorder};
use crate::object::{ObjList, ObjPtr};

verus! {

/// The index of the first occurrence of `p` in `c`.
pub open spec fn index_in(c: Seq<ObjPtr>, p: ObjPtr) -> Option<int>
    decreases c.len(),
{
    if c.len() == 0 {
        None
    } else if c[0] == p {
        Some(0)
    } else {
        match index_in(c.drop_first(), p) {
            Some(i) => Some(i + 1),
            None => None,
        }
    }
}

/// `c` without the first occurrence of `p`.
pub open spec fn removed(c: Seq<ObjPtr>, p: ObjPtr) -> Seq<ObjPtr> {
    match index_in(c, p) {
        Some(i) => c.remove(i),
        None => c,
    }
}

/// `c` with `p` inserted at `idx`, or at the end when `idx` is past it.
pub open spec fn inserted(c: Seq<ObjPtr>, idx: int, p: ObjPtr) -> Seq<ObjPtr> {
    c.insert(if idx < c.len() { idx } else { c.len() as int }, p)
}

proof fn lemma_index_in_bound(c: Seq<ObjPtr>, p: ObjPtr)
    ensures
        index_in(c, p) matches Some(i) ==> 0 <= i < c.len() && c[i] == p,
    decreases c.len(),
{
    if c.len() > 0 {
        lemma_index_in_bound(c.drop_first(), p);
    }
}

proof fn lemma_index_in(c: Seq<ObjPtr>, p: ObjPtr, n: int)
    requires
        0 <= n <= c.len(),
        forall|j: int| 0 <= j < n ==> c[j] != p,
    ensures
        n < c.len() && c[n] == p ==> index_in(c, p) == Some(n),
        n == c.len() ==> index_in(c, p) == None::<int>,
    decreases n,
{
    if n > 0 {
        assert forall|j: int| 0 <= j < n - 1 implies c.drop_first()[j] != p by {
            assert(c.drop_first()[j] == c[j + 1]);
        }
        lemma_index_in(c.drop_first(), p, n - 1);
    }
}

/// An ordered list of references to the children of a tree object.
pub trait Children: Sized {
    spec fn child_keys(&self) -> Seq<ObjPtr>;

    fn n_children(&self) -> (r: usize)
        ensures
            r == self.child_keys().len(),
    ;

    /// Inserts `child` at `idx`, or at the end when `idx` is past it.
    fn insert(&mut self, idx: usize, child: ObjPtr)
        ensures
            final(self).child_keys() == inserted(old(self).child_keys(), idx as int, child),
    ;

    /// Removes the first occurrence of `child` and returns where it stood.
    fn remove(&mut self, child: ObjPtr) -> (r: Option<usize>)
        ensures
            final(self).child_keys() == removed(old(self).child_keys(), child),
            match r {
                Some(i) => index_in(old(self).child_keys(), child) == Some(i as int),
                None => index_in(old(self).child_keys(), child) is None,
            },
    ;

    fn index_of(&self, child: ObjPtr) -> (r: Option<usize>)
        ensures
            match r {
                Some(i) => index_in(self.child_keys(), child) == Some(i as int),
                None => index_in(self.child_keys(), child) is None,
            },
    ;
}

impl Children for Vec<ObjPtr> {
    open spec fn child_keys(&self) -> Seq<ObjPtr> {
        self@
    }

    fn n_children(&self) -> (r: usize) {
        self.len()
    }

    fn insert(&mut self, idx: usize, child: ObjPtr) {
        let i = if idx < self.len() {
            idx
        } else {
            self.len()
        };
        self.insert(i, child);
    }

    fn remove(&mut self, child: ObjPtr) -> (r: Option<usize>) {
        proof {
            lemma_index_in_bound(self@, child);
        }
        match Children::index_of(self, child) {
            Some(i) => {
                self.remove(i);
                Some(i)
            },
            None => None,
        }
    }

    fn index_of(&self, child: ObjPtr) -> (r: Option<usize>) {
        let mut i: usize = 0;
        while i < self.len()
            invariant
                0 <= i <= self@.len(),
                forall|j: int| 0 <= j < i ==> self@[j] != child,
            decreases self@.len() - i,
        {
            if self[i] == child {
                proof {
                    lemma_index_in(self@, child, i as int);
                }
                return Some(i);
            }
            i += 1;
        }
        proof {
            lemma_index_in(self@, child, i as int);
        }
        None
    }
}

/// An object that is part of a tree of objects. Its parent is the key of
/// another object, or `0` for the project's root record; a parent that can
/// hold children exposes their list.
pub trait TreeObj<R>: Sized {
    spec fn parent_of(&self) -> u64;

    spec fn with_parent(self, parent: u64) -> Self;

    /// The object's own child list, if it can hold children.
    spec fn children_of(&self) -> Option<Seq<ObjPtr>>;

    spec fn with_children(self, children: Seq<ObjPtr>) -> Self;

    /// The root record's child list, if it holds one.
    spec fn root_children(r: R) -> Option<Seq<ObjPtr>>;

    spec fn with_root_children(r: R, children: Seq<ObjPtr>) -> R;

    /// Reading back a parent that was set gives it; setting the parent an
    /// object has changes nothing; a second setting overrides the first;
    /// setting the parent leaves the child list alone.
    proof fn lemma_parent_lens(o: Self, a: u64, b: u64)
        ensures
            o.with_parent(a).parent_of() == a,
            o.with_parent(o.parent_of()) == o,
            o.with_parent(a).with_parent(b) == o.with_parent(b),
            o.with_parent(a).children_of() == o.children_of(),
    ;

    /// The same laws for an object's child list, where it has one.
    proof fn lemma_children_lens(o: Self, a: Seq<ObjPtr>, b: Seq<ObjPtr>)
        ensures
            o.children_of() is Some ==> o.with_children(a).children_of() == Some(a),
            o.children_of() == Some(a) ==> o.with_children(a) == o,
            o.with_children(a).with_children(b) == o.with_children(b),
            o.with_children(a).parent_of() == o.parent_of(),
    ;

    /// The same laws for the root record's child list.
    proof fn lemma_root_lens(r: R, a: Seq<ObjPtr>, b: Seq<ObjPtr>)
        ensures
            Self::root_children(r) is Some ==> Self::root_children(Self::with_root_children(r, a)) == Some(a),
            Self::root_children(r) == Some(a) ==> Self::with_root_children(r, a) == r,
            Self::with_root_children(Self::with_root_children(r, a), b) == Self::with_root_children(r, b),
    ;

    fn parent(&self) -> (r: u64)
        ensures
            r == self.parent_of(),
    ;

    fn set_parent(self, parent: u64) -> (r: Self)
        ensures
            r == self.with_parent(parent),
    ;

    fn children(&self) -> (r: Option<Vec<ObjPtr>>)
        ensures
            match r {
                Some(c) => self.children_of() == Some(c@),
                None => self.children_of() is None,
            },
    ;

    fn set_children(self, children: Vec<ObjPtr>) -> (r: Self)
        ensures
            r == self.with_children(children@),
    ;

    fn root_children_of(r: &R) -> (c: Option<Vec<ObjPtr>>)
        ensures
            match c {
                Some(c) => Self::root_children(*r) == Some(c@),
                None => Self::root_children(*r) is None,
            },
    ;

    fn set_root_children(r: R, children: Vec<ObjPtr>) -> (out: R)
        ensures
            out == Self::with_root_children(r, children@),
    ;

    /// A copy of the object.
    fn duplicate(&self) -> (r: Self)
        ensures
            r == *self,
    ;

    /// A copy of the root record.
    fn duplicate_root(r: &R) -> (out: R)
        ensures
            out == *r,
    ;
}

/// The child list of `parent` in a project: the root's for key `0`.
pub open spec fn child_list<R, O: TreeObj<R>>(s: ProjectState<R, O>, parent: u64) -> Option<Seq<ObjPtr>> {
    if parent == 0 {
        O::root_children(s.project)
    } else if s.objects.contains_key(parent) {
        s.objects[parent].children_of()
    } else {
        None
    }
}

/// The project with the child list of `parent` replaced.
pub open spec fn with_child_list<R, O: TreeObj<R>>(s: ProjectState<R, O>, parent: u64, c: Seq<ObjPtr>) -> ProjectState<R, O> {
    if parent == 0 {
        ProjectState { project: O::with_root_children(s.project, c), objects: s.objects }
    } else if s.objects.contains_key(parent) {
        ProjectState { project: s.project, objects: s.objects.insert(parent, s.objects[parent].with_children(c)) }
    } else {
        s
    }
}

/// The effect of moving an object: it gets `new_parent` as parent, leaves
/// its old parent's list and enters the new one at `new_idx`. Nothing
/// happens when the object, or either list, does not exist.
pub open spec fn transfer_effect<R, O: TreeObj<R>>(s: ProjectState<R, O>, ptr: ObjPtr, new_parent: u64, new_idx: int) -> ProjectState<R, O> {
    if !s.objects.contains_key(ptr.key) {
        s
    } else {
        let old_parent = s.objects[ptr.key].parent_of();
        if child_list(s, old_parent) is None || child_list(s, new_parent) is None {
            s
        } else {
            let s1 = ProjectState {
                project: s.project,
                objects: s.objects.insert(ptr.key, s.objects[ptr.key].with_parent(new_parent)),
            };
            let s2 = match child_list(s1, old_parent) {
                Some(c) => with_child_list(s1, old_parent, removed(c, ptr)),
                None => s1,
            };
            match child_list(s2, new_parent) {
                Some(c) => with_child_list(s2, new_parent, inserted(c, new_idx, ptr)),
                None => s2,
            }
        }
    }
}

/// The effect of creating an object under a parent: it is added and enters
/// the parent's list at `idx`. Nothing happens when the key is in use or
/// the parent's list does not exist.
pub open spec fn create_effect<R, O: TreeObj<R>>(s: ProjectState<R, O>, ptr: ObjPtr, obj: O, idx: int) -> ProjectState<R, O> {
    let parent = obj.parent_of();
    if s.objects.contains_key(ptr.key) || child_list(s, parent) is None || parent == ptr.key {
        s
    } else {
        let s1 = ProjectState { project: s.project, objects: s.objects.insert(ptr.key, obj) };
        with_child_list(s1, parent, inserted(child_list(s1, parent)->0, idx, ptr))
    }
}

/// The effect of deleting an object: it leaves its parent's list (where
/// that list exists) and is removed. Nothing happens when it does not
/// exist.
pub open spec fn delete_effect<R, O: TreeObj<R>>(s: ProjectState<R, O>, ptr: ObjPtr) -> ProjectState<R, O> {
    if !s.objects.contains_key(ptr.key) {
        s
    } else {
        let parent = s.objects[ptr.key].parent_of();
        let s1 = match child_list(s, parent) {
            Some(c) => with_child_list(s, parent, removed(c, ptr)),
            None => s,
        };
        if s1.objects.contains_key(ptr.key) {
            ProjectState { project: s1.project, objects: s1.objects.remove(ptr.key) }
        } else {
            s1
        }
    }
}

fn read_child_list<R, O: TreeObj<R>>(recorder: &Recorder<R, O>, parent: u64) -> (r: Option<Vec<ObjPtr>>)
    ensures
        match r {
            Some(c) => child_list(recorder.state(), parent) == Some(c@),
            None => child_list(recorder.state(), parent) is None,
        },
{
    if parent == 0 {
        O::root_children_of(recorder.project())
    } else {
        match recorder.obj_list().get(ObjPtr::from_key(parent)) {
            Some(o) => o.children(),
            None => None,
        }
    }
}

fn write_child_list<R, O: TreeObj<R>>(recorder: &mut Recorder<R, O>, parent: u64, c: Vec<ObjPtr>)
    requires
        old(recorder).wf(),
    ensures
        final(recorder).wf(),
        final(recorder).start() == old(recorder).start(),
        final(recorder).state() == with_child_list(old(recorder).state(), parent, c@),
        final(recorder).deltas().len() <= old(recorder).deltas().len() + 1,
        final(recorder).deltas().take(old(recorder).deltas().len() as int) == old(recorder).deltas(),
        final(recorder).deltas().len() >= old(recorder).deltas().len(),
{
    if parent == 0 {
        let r = O::duplicate_root(recorder.project());
        recorder.set_project(O::set_root_children(r, c));
    } else {
        let ptr = ObjPtr::from_key(parent);
        let updated = match recorder.obj_list().get(ptr) {
            Some(o) => Some(o.duplicate().set_children(c)),
            None => None,
        };
        match updated {
            Some(u) => {
                recorder.set_object(ptr, u);
            },
            None => {},
        }
    }
}

/// Moves an object to a new parent, at `new_idx` in its list; see
/// `transfer_effect`. Each change is recorded.
pub fn transfer<R, O: TreeObj<R>>(recorder: &mut Recorder<R, O>, ptr: ObjPtr, new_parent: u64, new_idx: usize)
    requires
        old(recorder).wf(),
    ensures
        final(recorder).wf(),
        final(recorder).start() == old(recorder).start(),
        final(recorder).state() == transfer_effect(old(recorder).state(), ptr, new_parent, new_idx as int),
        ({
            let s = old(recorder).state();
            let d0 = old(recorder).deltas();
            let d1 = final(recorder).deltas();
            if !s.objects.contains_key(ptr.key) || child_list(s, s.objects[ptr.key].parent_of()) is None
                || child_list(s, new_parent) is None {
                d1 == d0
            } else {
                &&& d0.len() < d1.len() <= d0.len() + 3
                &&& d1.take(d0.len() as int) == d0
                &&& d1[d0.len() as int] == Delta::<R, O>::SetObject(ptr, s.objects[ptr.key])
            }
        }),
{
    let moved = match recorder.obj_list().get(ptr) {
        Some(o) => o.duplicate(),
        None => return,
    };
    let old_parent = moved.parent();
    if read_child_list(recorder, old_parent).is_none() || read_child_list(recorder, new_parent).is_none() {
        return;
    }
    let ghost d0 = recorder.deltas();
    recorder.set_object(ptr, moved.set_parent(new_parent));
    let ghost d1 = recorder.deltas();
    match read_child_list(recorder, old_parent) {
        Some(mut c) => {
            Children::remove(&mut c, ptr);
            write_child_list(recorder, old_parent, c);
        },
        None => {},
    }
    let ghost d2 = recorder.deltas();
    match read_child_list(recorder, new_parent) {
        Some(mut c) => {
            Children::insert(&mut c, new_idx, ptr);
            write_child_list(recorder, new_parent, c);
        },
        None => {},
    }
    proof {
        let d3 = recorder.deltas();
        assert(d1.len() == d0.len() + 1);
        assert(d2.take(d1.len() as int) == d1);
        assert(d3.take(d2.len() as int) == d2);
        assert(d3[d0.len() as int] == d2[d0.len() as int]) by {
            assert(d3.take(d2.len() as int)[d0.len() as int] == d3[d0.len() as int]);
        }
        assert(d2[d0.len() as int] == d1[d0.len() as int]) by {
            assert(d2.take(d1.len() as int)[d0.len() as int] == d2[d0.len() as int]);
        }
        assert(d3.take(d0.len() as int) =~= d0) by {
            assert forall|i: int| 0 <= i < d0.len() implies d3[i] == d0[i] by {
                assert(d3.take(d2.len() as int)[i] == d3[i]);
                assert(d2.take(d1.len() as int)[i] == d2[i]);
                assert(d1[i] == d0[i]);
            }
        }
    }
}

/// Where an object stands: its parent and its index in the parent's list.
/// A transfer back there undoes a transfer. `None` when the object, its
/// parent's list, or its place in that list is missing.
pub fn transfer_inverse<R, O: TreeObj<R>>(project: &R, objects: &ObjList<O>, ptr: ObjPtr) -> (r: Option<(u64, usize)>)
    ensures
        ({
            let s = ProjectState { project: *project, objects: objects.objects() };
            match r {
                Some((parent, idx)) => {
                    &&& s.objects.contains_key(ptr.key)
                    &&& parent == s.objects[ptr.key].parent_of()
                    &&& child_list(s, parent) matches Some(c) && index_in(c, ptr) == Some(idx as int)
                },
                None => !s.objects.contains_key(ptr.key) || child_list(s, s.objects[ptr.key].parent_of()) is None
                    || index_in(child_list(s, s.objects[ptr.key].parent_of())->0, ptr) is None,
            }
        }),
{
    let obj = match objects.get(ptr) {
        Some(o) => o,
        None => return None,
    };
    let parent = obj.parent();
    let list = if parent == 0 {
        O::root_children_of(project)
    } else {
        match objects.get(ObjPtr::from_key(parent)) {
            Some(o) => o.children(),
            None => None,
        }
    };
    match list {
        Some(c) => match Children::index_of(&c, ptr) {
            Some(i) => Some((parent, i)),
            None => None,
        },
        None => None,
    }
}

/// Creates an object under the parent its value names, at `idx` in the
/// parent's list; see `create_effect`. Returns whether it was created.
pub fn create_child<R, O: TreeObj<R>>(recorder: &mut Recorder<R, O>, ptr: ObjPtr, obj: O, idx: usize) -> (created: bool)
    requires
        old(recorder).wf(),
    ensures
        final(recorder).wf(),
        final(recorder).start() == old(recorder).start(),
        final(recorder).state() == create_effect(old(recorder).state(), ptr, obj, idx as int),
        created == (!old(recorder).state().objects.contains_key(ptr.key) && obj.parent_of() != ptr.key
            && child_list(old(recorder).state(), obj.parent_of()) is Some),
{
    let parent = obj.parent();
    if recorder.obj_list().contains(ptr) || parent == ptr.key {
        return false;
    }
    if read_child_list(recorder, parent).is_none() {
        return false;
    }
    recorder.add_object(ptr, obj);
    match read_child_list(recorder, parent) {
        Some(mut c) => {
            Children::insert(&mut c, idx, ptr);
            write_child_list(recorder, parent, c);
        },
        None => {
            assert(false);
        },
    }
    true
}

/// Deletes an object and takes it out of its parent's list; see
/// `delete_effect`. Its descendants are the caller's to delete first.
/// Returns whether it existed.
pub fn delete_child<R, O: TreeObj<R>>(recorder: &mut Recorder<R, O>, ptr: ObjPtr) -> (deleted: bool)
    requires
        old(recorder).wf(),
    ensures
        final(recorder).wf(),
        final(recorder).start() == old(recorder).start(),
        final(recorder).state() == delete_effect(old(recorder).state(), ptr),
        deleted == old(recorder).state().objects.contains_key(ptr.key),
{
    let parent = match recorder.obj_list().get(ptr) {
        Some(o) => o.parent(),
        None => return false,
    };
    match read_child_list(recorder, parent) {
        Some(mut c) => {
            Children::remove(&mut c, ptr);
            write_child_list(recorder, parent, c);
        },
        None => {},
    }
    recorder.delete_object(ptr);
    true
}

/// Putting an element back where it was taken from restores the list.
proof fn lemma_reinsert(c: Seq<ObjPtr>, p: ObjPtr, i: int)
    requires
        index_in(c, p) == Some(i),
    ensures
        inserted(removed(c, p), i, p) == c,
{
    lemma_index_in_bound(c, p);
    assert(inserted(removed(c, p), i, p) =~= c);
}

/// Taking out an element that was inserted into a list without it restores
/// the list, and the element is found where it was inserted.
proof fn lemma_take_back(c: Seq<ObjPtr>, j: int, p: ObjPtr)
    requires
        !c.contains(p),
        0 <= j,
    ensures
        removed(inserted(c, j, p), p) == c,
        index_in(inserted(c, j, p), p) == Some(if j < c.len() { j } else { c.len() as int }),
{
    let at = if j < c.len() { j } else { c.len() as int };
    let d = inserted(c, j, p);
    assert forall|m: int| 0 <= m < at implies d[m] != p by {
        assert(d[m] == c[m]);
    }
    lemma_index_in(d, p, at);
    assert(d.remove(at) =~= c);
}

/// Whether an object may be moved, with the move undone by moving it back:
/// it exists, it is neither its own old nor its new parent, it stands once
/// in its old parent's list, and it is not yet in a different new parent's
/// list.
pub open spec fn transfer_undoable<R, O: TreeObj<R>>(s: ProjectState<R, O>, ptr: ObjPtr, new_parent: u64) -> bool {
    &&& ptr.key != 0
    &&& s.objects.contains_key(ptr.key)
    &&& {
        let old_parent = s.objects[ptr.key].parent_of();
        &&& old_parent != ptr.key
        &&& new_parent != ptr.key
        &&& child_list(s, old_parent) matches Some(c) && index_in(c, ptr) is Some && !removed(c, ptr).contains(ptr)
        &&& child_list(s, new_parent) matches Some(c) && (new_parent != old_parent ==> !c.contains(ptr))
    }
}

proof fn lemma_list_after_set<R, O: TreeObj<R>>(s: ProjectState<R, O>, key: u64, o: O, parent: u64)
    requires
        parent != key,
    ensures
        child_list(ProjectState { project: s.project, objects: s.objects.insert(key, o) }, parent) == child_list(s, parent),
{
}

proof fn lemma_with_list<R, O: TreeObj<R>>(s: ProjectState<R, O>, parent: u64, c: Seq<ObjPtr>, other: u64)
    requires
        child_list(s, parent) is Some,
    ensures
        child_list(with_child_list(s, parent, c), parent) == Some(c),
        other != parent ==> child_list(with_child_list(s, parent, c), other) == child_list(s, other),
        other != 0 && other != parent && s.objects.contains_key(other) ==> with_child_list(s, parent, c).objects[other]
            == s.objects[other],
        with_child_list(s, parent, c).objects.dom() == s.objects.dom(),
{
    if parent == 0 {
        O::lemma_root_lens(s.project, c, c);
    } else {
        O::lemma_children_lens(s.objects[parent], c, c);
    }
}

/// The project with the object under `key` replaced.
pub open spec fn with_object<R, O>(s: ProjectState<R, O>, key: u64, o: O) -> ProjectState<R, O> {
    ProjectState { project: s.project, objects: s.objects.insert(key, o) }
}

proof fn lemma_get_put<R, O: TreeObj<R>>(s: ProjectState<R, O>, x: u64, c: Seq<ObjPtr>)
    requires
        child_list(s, x) == Some(c),
    ensures
        with_child_list(s, x, c) == s,
{
    if x == 0 {
        O::lemma_root_lens(s.project, c, c);
    } else {
        O::lemma_children_lens(s.objects[x], c, c);
        assert(s.objects.insert(x, s.objects[x].with_children(c)) =~= s.objects);
    }
}

proof fn lemma_put_put<R, O: TreeObj<R>>(s: ProjectState<R, O>, x: u64, a: Seq<ObjPtr>, b: Seq<ObjPtr>)
    requires
        child_list(s, x) is Some,
    ensures
        with_child_list(with_child_list(s, x, a), x, b) == with_child_list(s, x, b),
{
    if x == 0 {
        O::lemma_root_lens(s.project, a, b);
    } else {
        O::lemma_children_lens(s.objects[x], a, b);
        assert(s.objects.insert(x, s.objects[x].with_children(a)).insert(
            x,
            s.objects[x].with_children(a).with_children(b),
        ) =~= s.objects.insert(x, s.objects[x].with_children(b)));
    }
}

proof fn lemma_commute<R, O: TreeObj<R>>(s: ProjectState<R, O>, x: u64, y: u64, a: Seq<ObjPtr>, b: Seq<ObjPtr>)
    requires
        x != y,
    ensures
        with_child_list(with_child_list(s, x, a), y, b) == with_child_list(with_child_list(s, y, b), x, a),
{
    let l = with_child_list(with_child_list(s, x, a), y, b);
    let r = with_child_list(with_child_list(s, y, b), x, a);
    assert(l.objects =~= r.objects);
}

proof fn lemma_set_commute<R, O: TreeObj<R>>(s: ProjectState<R, O>, k: u64, o: O, x: u64, a: Seq<ObjPtr>)
    requires
        k != x,
        k != 0,
    ensures
        with_child_list(with_object(s, k, o), x, a) == with_object(with_child_list(s, x, a), k, o),
{
    let l = with_child_list(with_object(s, k, o), x, a);
    let r = with_object(with_child_list(s, x, a), k, o);
    assert(l.objects =~= r.objects);
}

proof fn lemma_set_set<R, O>(s: ProjectState<R, O>, k: u64, a: O)
    requires
        s.objects.contains_key(k),
    ensures
        with_object(with_object(s, k, a), k, s.objects[k]) == s,
{
    assert(s.objects.insert(k, a).insert(k, s.objects[k]) =~= s.objects);
}

/// Moving an object and then moving it back to its old parent, at the index
/// it had there, restores the project, when the move is undoable.
pub proof fn lemma_transfer_back<R, O: TreeObj<R>>(s: ProjectState<R, O>, ptr: ObjPtr, new_parent: u64, new_idx: int)
    requires
        transfer_undoable(s, ptr, new_parent),
        new_idx >= 0,
    ensures
        ({
            let old_parent = s.objects[ptr.key].parent_of();
            let i = index_in(child_list(s, old_parent)->0, ptr)->0;
            transfer_effect(transfer_effect(s, ptr, new_parent, new_idx), ptr, old_parent, i) == s
        }),
{
    let k = ptr.key;
    let obj = s.objects[k];
    let op = obj.parent_of();
    let np = new_parent;
    let c_old = child_list(s, op)->0;
    let c_new = child_list(s, np)->0;
    let i = index_in(c_old, ptr)->0;
    let r = removed(c_old, ptr);
    O::lemma_parent_lens(obj, np, op);
    lemma_index_in_bound(c_old, ptr);
    // the move
    let o1 = obj.with_parent(np);
    let s1 = with_object(s, k, o1);
    lemma_list_after_set(s, k, o1, op);
    lemma_list_after_set(s, k, o1, np);
    let s2 = with_child_list(s1, op, r);
    lemma_with_list(s1, op, r, np);
    lemma_with_list(s1, op, r, k);
    let c_mid = if np == op { r } else { c_new };
    assert(child_list(s2, np) == Some(c_mid));
    let ins = inserted(c_mid, new_idx, ptr);
    let s3 = with_child_list(s2, np, ins);
    lemma_with_list(s2, np, ins, op);
    lemma_with_list(s2, np, ins, k);
    assert(transfer_effect(s, ptr, np, new_idx) == s3);
    // the move back
    assert(s3.objects[k] == o1);
    assert(o1.with_parent(op) == obj);
    lemma_take_back(c_mid, new_idx, ptr);
    let t1 = with_object(s3, k, obj);
    lemma_list_after_set(s3, k, obj, np);
    lemma_list_after_set(s3, k, obj, op);
    let t2 = with_child_list(t1, np, c_mid);
    lemma_with_list(t1, np, c_mid, op);
    let c_back = if np == op { c_mid } else { r };
    assert(child_list(t2, op) == Some(c_back));
    lemma_reinsert(c_old, ptr, i);
    let t3 = with_child_list(t2, op, c_old);
    assert(transfer_effect(s3, ptr, op, i) == t3);
    // t1 is s with the two list writes
    lemma_set_commute(s2, k, obj, np, ins);
    lemma_set_commute(s1, k, obj, op, r);
    lemma_set_set(s, k, o1);
    let u2 = with_child_list(s, op, r);
    assert(t1 == with_child_list(u2, np, ins));
    lemma_with_list(s, op, r, np);
    lemma_put_put(u2, np, ins, c_mid);
    if np == op {
        lemma_put_put(s, op, r, c_mid);
        lemma_put_put(s, op, c_mid, c_old);
        lemma_get_put(s, op, c_old);
    } else {
        lemma_commute(s, op, np, r, c_mid);
        lemma_get_put(s, np, c_new);
        lemma_put_put(s, op, r, c_old);
        lemma_get_put(s, op, c_old);
    }
}

/// Deleting an object and creating it again, with its old value, at the
/// index it had in its parent's list, restores the project.
pub proof fn lemma_delete_then_create<R, O: TreeObj<R>>(s: ProjectState<R, O>, ptr: ObjPtr)
    requires
        s.objects.contains_key(ptr.key),
        ptr.key != 0,
        s.objects[ptr.key].parent_of() != ptr.key,
        child_list(s, s.objects[ptr.key].parent_of()) matches Some(c) && index_in(c, ptr) is Some,
    ensures
        ({
            let obj = s.objects[ptr.key];
            let i = index_in(child_list(s, obj.parent_of())->0, ptr)->0;
            create_effect(delete_effect(s, ptr), ptr, obj, i) == s
        }),
{
    let k = ptr.key;
    let obj = s.objects[k];
    let parent = obj.parent_of();
    let c = child_list(s, parent)->0;
    let i = index_in(c, ptr)->0;
    let r = removed(c, ptr);
    lemma_index_in_bound(c, ptr);
    let s1 = with_child_list(s, parent, r);
    lemma_with_list(s, parent, r, k);
    let d = ProjectState { project: s1.project, objects: s1.objects.remove(k) };
    assert(delete_effect(s, ptr) == d);
    assert(child_list(d, parent) == Some(r));
    let t1 = with_object(d, k, obj);
    assert(t1.objects =~= s1.objects);
    assert(t1 == s1);
    lemma_reinsert(c, ptr, i);
    assert(create_effect(d, ptr, obj, i) == with_child_list(s1, parent, c));
    lemma_put_put(s, parent, r, c);
    lemma_get_put(s, parent, c);
}

/// Creating an object and then deleting it restores the project, when its
/// key was free and its parent's list did not hold it.
pub proof fn lemma_create_then_delete<R, O: TreeObj<R>>(s: ProjectState<R, O>, ptr: ObjPtr, obj: O, idx: int)
    requires
        !s.objects.contains_key(ptr.key),
        ptr.key != 0,
        obj.parent_of() != ptr.key,
        child_list(s, obj.parent_of()) matches Some(c) && !c.contains(ptr),
        idx >= 0,
    ensures
        delete_effect(create_effect(s, ptr, obj, idx), ptr) == s,
{
    let k = ptr.key;
    let parent = obj.parent_of();
    let c = child_list(s, parent)->0;
    let s1 = with_object(s, k, obj);
    lemma_list_after_set(s, k, obj, parent);
    let ins = inserted(c, idx, ptr);
    let t = with_child_list(s1, parent, ins);
    assert(create_effect(s, ptr, obj, idx) == t);
    lemma_with_list(s1, parent, ins, k);
    assert(t.objects[k] == obj);
    lemma_take_back(c, idx, ptr);
    let t2 = with_child_list(t, parent, c);
    lemma_with_list(t, parent, c, k);
    lemma_put_put(s1, parent, ins, c);
    lemma_set_commute(s, k, obj, parent, c);
    lemma_get_put(s, parent, c);
    assert(t2 == with_object(s, k, obj));
    assert(s.objects.insert(k, obj).remove(k) =~= s.objects);
    assert(delete_effect(t, ptr) == ProjectState { project: t2.project, objects: t2.objects.remove(k) });
}

} // verus!
